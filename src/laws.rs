//! Properties that relate parsing and repacking.

use vstd::prelude::*;
use vstd::utf8::*;

use crate::archive::{
    header_result, ids_distinct, insert_entry, lemma_table_error_stays, mpk_magic, parsed,
    record_at, table_entries, ArchiveView,
};
use crate::error::ArchiveError;
use crate::repack::{
    data_start, laid_out, lemma_repack_alignment, lemma_repack_fold_error_stays,
    lemma_repack_fold_layout, lemma_repack_fold_next, lemma_repack_stores, preamble, repack_fold,
    repacked_archive, replacement_for, stored_data, stored_in, RepackState,
};
use crate::bytes::{
    alignment_padding, decoded_name, le_bytes, le_value, lemma_le_bytes_len, lemma_le_round_trip,
    lemma_le_value_bound, lemma_pow256_eight, place, pow256, until_nul, zeros,
};
use crate::entry::{
    count_width, decode_record, encode_record, first_header_offset, lemma_decoded_record_shaped,
    lemma_record_round_trip, record_result, record_shaped, EntryView, RECORD_LEN,
};

verus! {

/// The entries that the first `n` records describe, in table order, leaving out
/// those whose offset is 0 (every record is taken to decode).
pub open spec fn nonzero_records(data: Seq<u8>, is_old_format: bool, start: nat, n: nat) -> Seq<
    EntryView,
>
    decreases n,
{
    if n == 0 {
        Seq::empty()
    } else {
        let prev = nonzero_records(data, is_old_format, start, (n - 1) as nat);
        let e = decode_record(is_old_format, record_at(data, start, (n - 1) as nat)).unwrap();
        if e.offset == 0 {
            prev
        } else {
            prev.push(e)
        }
    }
}

/// The number of the first `n` records whose offset is 0.
pub open spec fn zero_records(data: Seq<u8>, is_old_format: bool, start: nat, n: nat) -> nat
    decreases n,
{
    if n == 0 {
        0
    } else {
        let prev = zero_records(data, is_old_format, start, (n - 1) as nat);
        let e = decode_record(is_old_format, record_at(data, start, (n - 1) as nat)).unwrap();
        if e.offset == 0 {
            prev + 1
        } else {
            prev
        }
    }
}


proof fn lemma_table_prefix_ok(data: Seq<u8>, is_old_format: bool, start: nat, k: nat, n: nat)
    requires
        k <= n,
        table_entries(data, is_old_format, start, n) is Ok,
    ensures
        table_entries(data, is_old_format, start, k) is Ok,
{
    if table_entries(data, is_old_format, start, k) is Err {
        lemma_table_error_stays(data, is_old_format, start, k, n);
    }
}

proof fn lemma_table_lists_records(data: Seq<u8>, is_old_format: bool, start: nat, n: nat)
    requires
        table_entries(data, is_old_format, start, n) is Ok,
        ids_distinct(nonzero_records(data, is_old_format, start, n)),
    ensures
        table_entries(data, is_old_format, start, n) == Ok::<Seq<EntryView>, ArchiveError>(
            nonzero_records(data, is_old_format, start, n),
        ),
        nonzero_records(data, is_old_format, start, n).len() + zero_records(
            data,
            is_old_format,
            start,
            n,
        ) == n,
    decreases n,
{
    reveal(table_entries);
    if n > 0 {
        let m = (n - 1) as nat;
        lemma_table_prefix_ok(data, is_old_format, start, m, n);
        let prev = nonzero_records(data, is_old_format, start, m);
        let e = decode_record(is_old_format, record_at(data, start, m)).unwrap();
        assert(ids_distinct(prev)) by {
            if e.offset != 0 {
                assert forall|i: int, j: int| 0 <= i < j < prev.len() implies prev[i].id
                    != prev[j].id by {
                    assert(prev.push(e)[i] == prev[i]);
                    assert(prev.push(e)[j] == prev[j]);
                }
            }
        }
        lemma_table_lists_records(data, is_old_format, start, m);
        if e.offset != 0 {
            assert(!exists|i: int| 0 <= i < prev.len() && prev[i].id == e.id) by {
                if exists|i: int| 0 <= i < prev.len() && prev[i].id == e.id {
                    let i = choose|i: int| 0 <= i < prev.len() && prev[i].id == e.id;
                    assert(prev.push(e)[i] == prev[i]);
                    assert(prev.push(e)[prev.len() as int] == e);
                }
            }
        }
    }
}

/// Parsing lists exactly the entries that the table records describe, in table
/// order, without the records whose offset is 0 (when no two of the listed
/// records share an ID); the number of entries is the reported count less the
/// number of those records.
pub proof fn lemma_parse_lists_records(data: Seq<u8>)
    requires
        parsed(data) is Ok,
        ({
            let (version, count) = header_result(data).unwrap();
            ids_distinct(
                nonzero_records(
                    data,
                    version.is_old_format,
                    first_header_offset(version.is_old_format),
                    count as nat,
                ),
            )
        }),
    ensures
        ({
            let (version, count) = header_result(data).unwrap();
            let start = first_header_offset(version.is_old_format);
            let a = parsed(data).unwrap();
            &&& a.entries == nonzero_records(data, version.is_old_format, start, count as nat)
            &&& a.entries.len() == count - zero_records(
                data,
                version.is_old_format,
                start,
                count as nat,
            )
        }),
{
    let (version, count) = header_result(data).unwrap();
    let start = first_header_offset(version.is_old_format);
    lemma_table_lists_records(data, version.is_old_format, start, count as nat);
}


/// The entries of a parsed table have distinct IDs, offsets above 0, and can
/// each be described by a record again.
proof fn lemma_table_entries_shape(data: Seq<u8>, is_old_format: bool, start: nat, n: nat)
    requires
        table_entries(data, is_old_format, start, n) is Ok,
        start + RECORD_LEN * n <= data.len(),
    ensures
        ({
            let s = table_entries(data, is_old_format, start, n).unwrap();
            &&& s.len() <= n
            &&& ids_distinct(s)
            &&& forall|i: int| 0 <= i < s.len() ==> (#[trigger] s[i]).offset > 0
            &&& forall|i: int| 0 <= i < s.len() ==> record_shaped(is_old_format, #[trigger] s[i])
        }),
    decreases n,
{
    reveal(table_entries);
    if n > 0 {
        let m = (n - 1) as nat;
        if table_entries(data, is_old_format, start, m) is Err {
            lemma_table_error_stays(data, is_old_format, start, m, n);
        }
        assert(start + RECORD_LEN * m + RECORD_LEN <= data.len()) by (nonlinear_arith)
            requires
                start + RECORD_LEN * n <= data.len(),
                m + 1 == n,
        ;
        lemma_table_entries_shape(data, is_old_format, start, m);
        let rec = record_at(data, start, m);
        lemma_decoded_record_shaped(is_old_format, rec);
        let s = table_entries(data, is_old_format, start, m).unwrap();
        let e = decode_record(is_old_format, rec).unwrap();
        if e.offset != 0 {
            let t = insert_entry(s, e);
            if exists|i: int| 0 <= i < s.len() && s[i].id == e.id {
                let i = choose|i: int| 0 <= i < s.len() && s[i].id == e.id;
                assert(t == s.update(i, e));
                assert forall|x: int, y: int| 0 <= x < y < t.len() implies t[x].id != t[y].id by {
                    if x != i && y != i {
                        assert(t[x] == s[x] && t[y] == s[y]);
                    }
                }
            } else {
                assert(t == s.push(e));
            }
        }
    }
}

proof fn lemma_le_value_zeros(k: nat)
    ensures
        le_value(zeros(k)) == 0,
    decreases k,
{
    if k > 0 {
        assert(zeros(k).subrange(1, k as int) =~= zeros((k - 1) as nat));
        lemma_le_value_zeros((k - 1) as nat);
    }
}

/// An all-zero record decodes to an entry at offset 0.
proof fn lemma_zero_record(is_old_format: bool)
    ensures
        decode_record(is_old_format, zeros(RECORD_LEN as nat)) is Some,
        decode_record(is_old_format, zeros(RECORD_LEN as nat)).unwrap().offset == 0,
{
    let r = zeros(RECORD_LEN as nat);
    let field = r.subrange(32, 256);
    assert(field[0] == 0u8);
    assert(until_nul(field) =~= Seq::<u8>::empty());
    assert(valid_utf8(Seq::<u8>::empty()));
    assert(decoded_name(field) is Some);
    assert(r.subrange(4, 8) =~= zeros(4));
    assert(r.subrange(8, 16) =~= zeros(8));
    lemma_le_value_zeros(4);
    lemma_le_value_zeros(8);
}

/// Re-parsing a table whose first `b.len()` records describe `b` and whose
/// other records are zero gives `b`.
proof fn lemma_reparse_table(
    out: Seq<u8>,
    is_old_format: bool,
    t: nat,
    c: nat,
    b: Seq<EntryView>,
    k: nat,
)
    requires
        k <= c,
        b.len() <= c,
        t + RECORD_LEN * c <= out.len(),
        ids_distinct(b),
        forall|i: int| 0 <= i < b.len() ==> (#[trigger] b[i]).offset > 0,
        forall|i: int| 0 <= i < b.len() ==> record_shaped(is_old_format, #[trigger] b[i]),
        forall|i: int|
            0 <= i < b.len() ==> #[trigger] record_at(out, t, i as nat) == encode_record(
                is_old_format,
                b[i],
            ),
        forall|i: int|
            b.len() <= i < c ==> #[trigger] record_at(out, t, i as nat) == zeros(RECORD_LEN as nat),
    ensures
        table_entries(out, is_old_format, t, k) == Ok::<Seq<EntryView>, ArchiveError>(
            b.subrange(0, if k < b.len() { k as int } else { b.len() as int }),
        ),
    decreases k,
{
    reveal(table_entries);
    if k == 0 {
        assert(b.subrange(0, 0) =~= Seq::<EntryView>::empty());
    } else {
        let m = (k - 1) as nat;
        lemma_reparse_table(out, is_old_format, t, c, b, m);
        if m < b.len() {
            let e = b[m as int];
            assert(record_at(out, t, m) == encode_record(is_old_format, e));
            lemma_record_round_trip(is_old_format, e);
            let prev = b.subrange(0, m as int);
            assert(!exists|i: int| 0 <= i < prev.len() && prev[i].id == e.id) by {
                if exists|i: int| 0 <= i < prev.len() && prev[i].id == e.id {
                    let i = choose|i: int| 0 <= i < prev.len() && prev[i].id == e.id;
                    assert(b[i].id == b[m as int].id);
                }
            }
            assert(insert_entry(prev, e) =~= b.subrange(0, k as int));
        } else {
            assert(record_at(out, t, m) == zeros(RECORD_LEN as nat));
            lemma_zero_record(is_old_format);
        }
    }
}

/// Repacking the repacked bytes, read as the archive that the first repack
/// returned, goes through the same steps as the first repack.
proof fn lemma_refold(
    a: Seq<EntryView>,
    data: Seq<u8>,
    out: Seq<u8>,
    is_old_format: bool,
    start: nat,
    k: nat,
)
    requires
        k <= a.len(),
        repack_fold(a, data, Seq::empty(), is_old_format, start, a.len()) is Ok,
        ({
            let st = repack_fold(a, data, Seq::empty(), is_old_format, start, a.len());
            let b = st.unwrap().entries;
            &&& b.len() == a.len()
            &&& forall|j: int|
                0 <= j < b.len() ==> {
                    &&& laid_out(
                        #[trigger] b[j],
                        a[j],
                        repack_fold(
                            a,
                            data,
                            Seq::empty(),
                            is_old_format,
                            start,
                            a.len(),
                        ).unwrap().region,
                        start,
                        data,
                        Seq::empty(),
                    )
                    &&& b[j].offset + b[j].len_compressed <= out.len()
                    &&& stored_in(out, b[j]) == stored_data(a[j], data, Seq::empty())
                }
        }),
    ensures
        repack_fold(
            repack_fold(a, data, Seq::empty(), is_old_format, start, a.len()).unwrap().entries,
            out,
            Seq::empty(),
            is_old_format,
            start,
            k,
        ) == repack_fold(a, data, Seq::empty(), is_old_format, start, k),
    decreases k,
{
    reveal(repack_fold);
    let b = repack_fold(a, data, Seq::empty(), is_old_format, start, a.len()).unwrap().entries;
    if k > 0 {
        let m = (k - 1) as nat;
        lemma_refold(a, data, out, is_old_format, start, m);
        if repack_fold(a, data, Seq::empty(), is_old_format, start, m) is Err {
            lemma_repack_fold_error_stays(a, data, Seq::empty(), is_old_format, start, m, a.len());
        }
        let files = Seq::<(Seq<char>, Seq<u8>)>::empty();
        let e = a[m as int];
        let f = b[m as int];
        assert(replacement_for(files, e.name) is None);
        assert(replacement_for(files, f.name) is None);
        assert(stored_data(f, out, files) == stored_in(out, f));
    }
}

/// Repacking without replacements settles: where the table ends before the
/// data starts, the bytes that such a repack writes parse to the archive that
/// it returns, and repacking those bytes again without replacements gives the
/// same archive and the same bytes.
pub proof fn lemma_repack_idempotent(data: Seq<u8>)
    requires
        parsed(data) is Ok,
        repacked_archive(parsed(data).unwrap(), data, Seq::empty()) is Ok,
        first_header_offset(parsed(data).unwrap().version.is_old_format) + RECORD_LEN * parsed(
            data,
        ).unwrap().reported_entry_count <= data_start(parsed(data).unwrap()),
    ensures
        ({
            let (b, out) = repacked_archive(parsed(data).unwrap(), data, Seq::empty()).unwrap();
            &&& parsed(out) == Ok::<ArchiveView, ArchiveError>(b)
            &&& repacked_archive(b, out, Seq::empty()) == Ok::<
                (ArchiveView, Seq<u8>),
                ArchiveError,
            >((b, out))
        }),
{
    let a = parsed(data).unwrap();
    let files = Seq::<(Seq<char>, Seq<u8>)>::empty();
    let v = a.version;
    let is_old_format = v.is_old_format;
    let c = a.reported_entry_count;
    let t = first_header_offset(is_old_format);
    let n = a.entries.len();
    let start = data_start(a);
    let width = count_width(is_old_format);
    lemma_pow256_eight();

    // What parsing `data` gives.
    assert(header_result(data) == Ok::<(crate::entry::MpkVersion, u64), ArchiveError>((v, c)));
    lemma_table_entries_shape(data, is_old_format, t, c as nat);
    lemma_le_value_bound(data.subrange(8, 8 + width as int));

    // What the repack writes.
    lemma_repack_fold_layout(a.entries, data, files, is_old_format, start, n);
    lemma_repack_stores(a, data, files);
    lemma_repack_alignment(a, data, files);
    let st = repack_fold(a.entries, data, files, is_old_format, start, n).unwrap();
    let b = ArchiveView { entries: st.entries, ..a };
    let pre = preamble(v, c);
    lemma_le_bytes_len(v.minor as nat, 2);
    lemma_le_bytes_len(v.major as nat, 2);
    lemma_le_bytes_len(c as nat, width);
    let inner = place(pre, start, st.region);
    let out = place(inner, t, st.table);
    assert(repacked_archive(a, data, files) == Ok::<(ArchiveView, Seq<u8>), ArchiveError>(
        (b, out),
    ));
    assert(pre.len() == 8 + width);
    assert(t + RECORD_LEN * c <= start);
    assert(out.len() >= start);

    // The header reads back.
    assert(out.subrange(0, 4) =~= mpk_magic());
    assert(out.subrange(4, 6) =~= le_bytes(v.minor as nat, 2));
    assert(out.subrange(6, 8) =~= le_bytes(v.major as nat, 2));
    assert(out.subrange(8, 8 + width as int) =~= le_bytes(c as nat, width));
    lemma_le_round_trip(v.minor as nat, 2);
    lemma_le_round_trip(v.major as nat, 2);
    lemma_le_round_trip(c as nat, width);
    assert(header_result(out) == Ok::<(crate::entry::MpkVersion, u64), ArchiveError>((v, c)));

    // The table reads back.
    assert forall|i: int| 0 <= i < st.entries.len() implies record_shaped(
        is_old_format,
        #[trigger] st.entries[i],
    ) && st.entries[i].offset > 0 by {
        assert(laid_out(st.entries[i], a.entries[i], st.region, start, data, files));
        assert(record_shaped(is_old_format, a.entries[i]));
        assert(a.entries[0].offset > 0);
    }
    assert(ids_distinct(st.entries)) by {
        assert forall|x: int, y: int| 0 <= x < y < st.entries.len() implies st.entries[x].id
            != st.entries[y].id by {
            assert(laid_out(st.entries[x], a.entries[x], st.region, start, data, files));
            assert(laid_out(st.entries[y], a.entries[y], st.region, start, data, files));
        }
    }
    assert forall|i: int| 0 <= i < st.entries.len() implies #[trigger] record_at(
        out,
        t,
        i as nat,
    ) == encode_record(is_old_format, st.entries[i]) by {
        assert(record_at(out, t, i as nat) =~= st.table.subrange(
            RECORD_LEN * i,
            RECORD_LEN * i + RECORD_LEN,
        ));
    }
    assert forall|i: int| st.entries.len() <= i < c implies #[trigger] record_at(
        out,
        t,
        i as nat,
    ) == zeros(RECORD_LEN as nat) by {
        assert(t + RECORD_LEN * i + RECORD_LEN <= t + RECORD_LEN * c) by (nonlinear_arith)
            requires
                i < c,
        ;
        assert(record_at(out, t, i as nat) =~= zeros(RECORD_LEN as nat));
    }
    lemma_reparse_table(out, is_old_format, t, c as nat, st.entries, c as nat);
    assert(st.entries.subrange(0, st.entries.len() as int) =~= st.entries);
    assert(parsed(out) == Ok::<ArchiveView, ArchiveError>(b));

    // The second repack repeats the first.
    lemma_refold(a.entries, data, out, is_old_format, start, n);
    assert(data_start(b) == start);
}

/// An all-zero last table record is dropped: where the records before it
/// parse, the archive parses, and its entries are exactly those that the
/// records before it give (an entry with ID 0 among them is kept as it is).
pub proof fn lemma_zero_last_record_dropped(data: Seq<u8>)
    requires
        header_result(data) is Ok,
        ({
            let (version, count) = header_result(data).unwrap();
            let start = first_header_offset(version.is_old_format);
            &&& count >= 1
            &&& start + RECORD_LEN * count <= data.len()
            &&& record_at(data, start, (count - 1) as nat) == zeros(RECORD_LEN as nat)
            &&& table_entries(data, version.is_old_format, start, (count - 1) as nat) is Ok
        }),
    ensures
        ({
            let (version, count) = header_result(data).unwrap();
            let start = first_header_offset(version.is_old_format);
            parsed(data) == Ok::<ArchiveView, ArchiveError>(
                ArchiveView {
                    version,
                    reported_entry_count: count,
                    entries: table_entries(
                        data,
                        version.is_old_format,
                        start,
                        (count - 1) as nat,
                    ).unwrap(),
                },
            )
        }),
{
    let (version, count) = header_result(data).unwrap();
    lemma_zero_record(version.is_old_format);
    reveal(table_entries);
}

/// Where an entry's stored bytes end.
pub open spec fn entry_end(e: EntryView) -> nat {
    (e.offset + e.len_compressed) as nat
}

/// Whether `next` starts at the first alignment boundary after `prev` ends,
/// with zeros in between.
pub open spec fn follows(prev: EntryView, next: EntryView, data: Seq<u8>) -> bool {
    let end = entry_end(prev);
    &&& next.offset == end + alignment_padding(end)
    &&& data.subrange(end as int, next.offset as int) == zeros(alignment_padding(end))
}

/// Whether `data` lays out the archive `a` as its format's producer writes it:
/// the header, zeros up to the table, one record per entry with zero reserved
/// bytes and zero name padding, zeros up to the first entry's data, and each
/// later entry at the first alignment boundary after the one before, with
/// zeros in between.
#[verifier::opaque]
pub open spec fn canonical_layout(data: Seq<u8>, a: ArchiveView) -> bool {
    let is_old_format = a.version.is_old_format;
    let t = first_header_offset(is_old_format);
    let e = a.entries;
    let n = e.len();
    let pre = preamble(a.version, a.reported_entry_count);
    let table_end = t + RECORD_LEN * n;
    &&& n >= 1
    &&& a.reported_entry_count == n
    &&& data.len() < pow256(8)
    &&& data.subrange(0, t as int) == pre + zeros((t - pre.len()) as nat)
    &&& forall|k: int|
        0 <= k < n ==> #[trigger] record_at(data, t, k as nat) == encode_record(
            is_old_format,
            e[k],
        )
    &&& table_end <= e[0].offset
    &&& data.subrange(table_end as int, e[0].offset as int) == zeros(
        (e[0].offset - table_end) as nat,
    )
    &&& forall|k: int| 0 <= k < n ==> entry_end(#[trigger] e[k]) <= data.len()
    &&& forall|k: int| 0 <= k < n - 1 ==> follows(#[trigger] e[k], e[k + 1], data)
}

/// Whether `data` is an archive laid out as its format's producer writes it.
pub open spec fn canonical_image(data: Seq<u8>) -> bool {
    parsed(data) is Ok && canonical_layout(data, parsed(data).unwrap())
}

/// Where the data region of a canonical archive has reached after `k` entries.
pub open spec fn canonical_position(e: Seq<EntryView>, k: nat) -> nat {
    if k < e.len() {
        e[k as int].offset as nat
    } else {
        entry_end(e.last())
    }
}

proof fn lemma_canonical_entry(data: Seq<u8>, a: ArchiveView, m: int)
    requires
        canonical_layout(data, a),
        0 <= m < a.entries.len(),
    ensures
        record_at(data, first_header_offset(a.version.is_old_format), m as nat) == encode_record(
            a.version.is_old_format,
            a.entries[m],
        ),
        entry_end(a.entries[m]) <= data.len() < pow256(8),
        m + 1 < a.entries.len() ==> follows(a.entries[m], a.entries[m + 1], data),
{
    reveal(canonical_layout);
}

proof fn lemma_canonical_offsets(data: Seq<u8>, a: ArchiveView, k: int)
    requires
        canonical_layout(data, a),
        0 <= k < a.entries.len(),
    ensures
        a.entries[0].offset <= a.entries[k].offset,
    decreases k,
{
    if k > 0 {
        lemma_canonical_offsets(data, a, k - 1);
        lemma_canonical_entry(data, a, k - 1);
    }
}

proof fn lemma_canonical_head(data: Seq<u8>, a: ArchiveView)
    requires
        canonical_layout(data, a),
    ensures
        ({
            let t = first_header_offset(a.version.is_old_format);
            let pre = preamble(a.version, a.reported_entry_count);
            let table_end = t + RECORD_LEN * a.entries.len();
            &&& a.entries.len() >= 1
            &&& a.reported_entry_count == a.entries.len()
            &&& data.subrange(0, t as int) == pre + zeros((t - pre.len()) as nat)
            &&& table_end <= a.entries[0].offset
            &&& data.subrange(table_end as int, a.entries[0].offset as int) == zeros(
                (a.entries[0].offset - table_end) as nat,
            )
        }),
{
    reveal(canonical_layout);
}

/// Writing the header, then the data region at `start`, then the table at `t`
/// gives back `data` up to `end` when `data` holds exactly those pieces, with
/// zeros in the gaps.
proof fn lemma_layout_bytes(
    data: Seq<u8>,
    pre: Seq<u8>,
    region: Seq<u8>,
    table: Seq<u8>,
    t: nat,
    table_end: nat,
    start: nat,
    end: nat,
)
    requires
        pre.len() <= t <= table_end <= start <= end <= data.len(),
        table == data.subrange(t as int, table_end as int),
        region == data.subrange(start as int, end as int),
        data.subrange(0, t as int) == pre + zeros((t - pre.len()) as nat),
        data.subrange(table_end as int, start as int) == zeros((start - table_end) as nat),
    ensures
        place(place(pre, start, region), t, table) == data.subrange(0, end as int),
{
    let out = place(place(pre, start, region), t, table);
    let head = data.subrange(0, t as int);
    let gap = data.subrange(table_end as int, start as int);
    assert forall|i: int| 0 <= i < end implies out[i] == data[i] by {
        if t <= i < table_end {
            assert(table[i - t] == data[i]);
        } else if start <= i < end {
            assert(region[i - start] == data[i]);
        } else if i < t {
            assert(head[i] == data[i]);
            if i >= pre.len() {
                assert((pre + zeros((t - pre.len()) as nat))[i] == 0u8);
            }
        } else {
            assert(gap[i - table_end] == data[i]);
        }
    }
    assert(out =~= data.subrange(0, end as int));
}

#[verifier::spinoff_prover]
proof fn lemma_canonical_fold(data: Seq<u8>, a: ArchiveView, k: nat)
    requires
        canonical_layout(data, a),
        forall|i: int|
            0 <= i < a.entries.len() ==> record_shaped(
                a.version.is_old_format,
                #[trigger] a.entries[i],
            ),
        k <= a.entries.len(),
    ensures
        ({
            let is_old_format = a.version.is_old_format;
            let t = first_header_offset(is_old_format);
            let start = a.entries[0].offset as nat;
            let p = canonical_position(a.entries, k);
            &&& start <= p <= data.len()
            &&& repack_fold(a.entries, data, Seq::empty(), is_old_format, start, k) == Ok::<
                RepackState,
                ArchiveError,
            >(
                RepackState {
                    region: data.subrange(start as int, p as int),
                    entries: a.entries.subrange(0, k as int),
                    table: data.subrange(t as int, t + RECORD_LEN * k),
                },
            )
        }),
    decreases k,
{
    lemma_pow256_eight();
    let is_old_format = a.version.is_old_format;
    let t = first_header_offset(is_old_format);
    let start = a.entries[0].offset as nat;
    let files = Seq::<(Seq<char>, Seq<u8>)>::empty();
    let n = a.entries.len();
    lemma_canonical_head(data, a);
    lemma_canonical_entry(data, a, 0);
    if k == 0 {
        reveal(repack_fold);
        assert(data.subrange(start as int, start as int) =~= Seq::<u8>::empty());
        assert(a.entries.subrange(0, 0) =~= Seq::<EntryView>::empty());
        assert(data.subrange(t as int, t as int) =~= Seq::<u8>::empty());
    } else {
        let m = (k - 1) as nat;
        lemma_canonical_fold(data, a, m);
        lemma_canonical_entry(data, a, m as int);
        lemma_canonical_offsets(data, a, m as int);
        lemma_repack_fold_next(a.entries, data, files, is_old_format, start, m);
        let st = repack_fold(a.entries, data, files, is_old_format, start, m).unwrap();
        let e = a.entries[m as int];
        lemma_record_round_trip(is_old_format, e);
        assert(replacement_for(files, e.name) is None);
        let end = entry_end(e);
        assert(entry_end(e) <= data.len());
        let data_k = stored_data(e, data, files);
        assert(data_k == data.subrange(e.offset as int, end as int));
        let pad = if k == n {
            0
        } else {
            alignment_padding(end)
        };
        if k < n {
            assert(follows(a.entries[m as int], a.entries[m + 1 as int], data));
            lemma_canonical_offsets(data, a, k as int);
        }
        assert(end + pad < pow256(8));
        let ne = EntryView {
            offset: (start + st.region.len()) as u64,
            len_compressed: data_k.len() as u64,
            len_deflated: e.len_deflated,
            ..e
        };
        assert(ne == e);
        assert(record_result(is_old_format, ne) == Ok::<Seq<u8>, ArchiveError>(
            encode_record(is_old_format, e),
        ));
        assert(repack_fold(a.entries, data, files, is_old_format, start, k) == Ok::<
            RepackState,
            ArchiveError,
        >(
            RepackState {
                region: st.region + data_k + zeros(pad),
                entries: st.entries.push(ne),
                table: st.table + encode_record(is_old_format, e),
            },
        ));
        let p = canonical_position(a.entries, k);
        if k < n {
            lemma_canonical_entry(data, a, k as int);
            assert(p == end + pad);
        } else {
            assert(a.entries.last() == e);
            assert(p == end);
        }
        assert(start <= e.offset <= end <= p <= data.len());
        let r1 = data.subrange(start as int, e.offset as int);
        let r3 = data.subrange(end as int, p as int);
        assert(r3 =~= zeros(pad));
        assert(data.subrange(start as int, p as int) =~= r1 + data_k + r3);
        assert(t + RECORD_LEN * k <= t + RECORD_LEN * n) by (nonlinear_arith)
            requires
                k <= n,
        ;
        assert(data.subrange(t as int, t + RECORD_LEN * k) =~= data.subrange(
            t as int,
            t + RECORD_LEN * m,
        ) + record_at(data, t, m));
        assert(st.entries.push(ne) =~= a.entries.subrange(0, k as int));
    }
}

/// Repacking a canonical archive without replacements gives back its bytes up
/// to the end of its last entry, and the same entries, offsets and sizes.
#[verifier::spinoff_prover]
pub proof fn lemma_canonical_repack_identity(data: Seq<u8>)
    requires
        canonical_image(data),
    ensures
        ({
            let a = parsed(data).unwrap();
            repacked_archive(a, data, Seq::empty()) == Ok::<
                (ArchiveView, Seq<u8>),
                ArchiveError,
            >((a, data.subrange(0, entry_end(a.entries.last()) as int)))
        }),
{
    let a = parsed(data).unwrap();
    let n = a.entries.len();
    let is_old_format = a.version.is_old_format;
    let t = first_header_offset(is_old_format);
    let start = a.entries[0].offset as nat;
    let width = count_width(is_old_format);
    let (version, count) = header_result(data).unwrap();
    lemma_table_entries_shape(data, is_old_format, t, count as nat);
    lemma_canonical_fold(data, a, n);
    lemma_canonical_output(data, a);
}

#[verifier::spinoff_prover]
proof fn lemma_canonical_output(data: Seq<u8>, a: ArchiveView)
    requires
        canonical_layout(data, a),
        ({
            let is_old_format = a.version.is_old_format;
            let t = first_header_offset(is_old_format);
            let start = a.entries[0].offset as nat;
            let n = a.entries.len();
            &&& canonical_position(a.entries, n) <= data.len()
            &&& repack_fold(a.entries, data, Seq::empty(), is_old_format, start, n) == Ok::<
                RepackState,
                ArchiveError,
            >(
                RepackState {
                    region: data.subrange(start as int, canonical_position(a.entries, n) as int),
                    entries: a.entries.subrange(0, n as int),
                    table: data.subrange(t as int, t + RECORD_LEN * n),
                },
            )
        }),
    ensures
        repacked_archive(a, data, Seq::empty()) == Ok::<(ArchiveView, Seq<u8>), ArchiveError>(
            (a, data.subrange(0, entry_end(a.entries.last()) as int)),
        ),
{
    let n = a.entries.len();
    let is_old_format = a.version.is_old_format;
    let t = first_header_offset(is_old_format);
    let start = a.entries[0].offset as nat;
    let width = count_width(is_old_format);
    let files = Seq::<(Seq<char>, Seq<u8>)>::empty();
    let st = repack_fold(a.entries, data, files, is_old_format, start, n).unwrap();
    lemma_canonical_head(data, a);
    assert(a.entries.subrange(0, n as int) =~= a.entries);
    let pre = preamble(a.version, a.reported_entry_count);
    lemma_le_bytes_len(a.version.minor as nat, 2);
    lemma_le_bytes_len(a.version.major as nat, 2);
    lemma_le_bytes_len(a.reported_entry_count as nat, width);
    let end = entry_end(a.entries.last());
    let table_end = (t + RECORD_LEN * n) as nat;
    lemma_canonical_entry(data, a, n - 1);
    lemma_canonical_offsets(data, a, n - 1);
    assert(a.entries.last() == a.entries[n - 1]);
    lemma_layout_bytes(data, pre, st.region, st.table, t, table_end, start, end);
    assert(ArchiveView { entries: st.entries, ..a } == a);
}

} // verus!

//! What a repack writes, stated entry by entry, and what follows from it.

use vstd::prelude::*;

use crate::archive::{mpk_magic, ArchiveView};
use crate::bytes::{
    alignment_padding, lemma_le_bytes_len, lemma_pow256_eight, le_bytes, place, pow256, zeros,
    ALIGNMENT,
};
use crate::entry::{
    count_width, encode_record, extracted, first_header_offset, record_result, repacked,
    zlib_deflated, zlib_inflated, EntryView, MpkVersion, RECORD_LEN,
};
use crate::error::ArchiveError;

verus! {

/// A file whose contents replace those of the entry with the same name.
pub struct RepackFile {
    pub name: String,
    pub contents: Vec<u8>,
}

impl View for RepackFile {
    type V = (Seq<char>, Seq<u8>);

    open spec fn view(&self) -> (Seq<char>, Seq<u8>) {
        (self.name@, self.contents@)
    }
}

/// The names and contents of a list of replacement files.
pub open spec fn files_view(files: Seq<RepackFile>) -> Seq<(Seq<char>, Seq<u8>)> {
    files.map_values(|f: RepackFile| f@)
}

/// Whether some entry has the name `name`.
pub open spec fn names_an_entry(entries: Seq<EntryView>, name: Seq<char>) -> bool {
    exists|i: int| 0 <= i < entries.len() && entries[i].name == name
}

/// The name of the first replacement file that names no entry.
pub open spec fn first_unknown(entries: Seq<EntryView>, files: Seq<(Seq<char>, Seq<u8>)>) -> Option<
    Seq<char>,
>
    decreases files.len(),
{
    if files.len() == 0 {
        None
    } else if !names_an_entry(entries, files[0].0) {
        Some(files[0].0)
    } else {
        first_unknown(entries, files.drop_first())
    }
}

/// The contents of the first replacement file named `name`.
pub open spec fn replacement_for(files: Seq<(Seq<char>, Seq<u8>)>, name: Seq<char>) -> Option<
    Seq<u8>,
>
    decreases files.len(),
{
    if files.len() == 0 {
        None
    } else if files[0].0 == name {
        Some(files[0].1)
    } else {
        replacement_for(files.drop_first(), name)
    }
}

/// What a repack has produced after some entries: the data region that starts
/// at the first entry's offset, the new entries, and their table records.
pub struct RepackState {
    pub region: Seq<u8>,
    pub entries: Seq<EntryView>,
    pub table: Seq<u8>,
}

/// The bytes that a repack stores for the entry `e`: the replacement file's
/// contents (compressed where `e` is), or else `e`'s stored bytes in `source`.
pub open spec fn stored_data(
    e: EntryView,
    source: Seq<u8>,
    files: Seq<(Seq<char>, Seq<u8>)>,
) -> Seq<u8> {
    match replacement_for(files, e.name) {
        Some(c) => repacked(e, c),
        None => source.subrange(e.offset as int, e.offset + e.len_compressed),
    }
}

/// One step of a repack: the entry `e` is stored after what `st` holds.
pub open spec fn repack_step(
    st: RepackState,
    e: EntryView,
    is_last: bool,
    source: Seq<u8>,
    files: Seq<(Seq<char>, Seq<u8>)>,
    is_old_format: bool,
    start: nat,
) -> Result<RepackState, ArchiveError> {
    let pos = start + st.region.len();
    let rep = replacement_for(files, e.name);
    if rep is None && e.offset + e.len_compressed > source.len() {
        Err(ArchiveError::TruncatedRead)
    } else {
        let data = stored_data(e, source, files);
        let len_deflated = match rep {
            Some(c) => c.len() as u64,
            None => e.len_deflated,
        };
        let end = pos + data.len();
        let pad = if is_last {
            0
        } else {
            alignment_padding(end)
        };
        if end + pad >= pow256(8) {
            Err(ArchiveError::ValueTooLargeForFormat)
        } else {
            let ne = EntryView {
                offset: pos as u64,
                len_compressed: data.len() as u64,
                len_deflated,
                ..e
            };
            match record_result(is_old_format, ne) {
                Err(x) => Err(x),
                Ok(rec) => Ok(
                    RepackState {
                        region: st.region + data + zeros(pad),
                        entries: st.entries.push(ne),
                        table: st.table + rec,
                    },
                ),
            }
        }
    }
}

/// The repack of the first `k` entries, the data region starting at `start`.
#[verifier::opaque]
pub open spec fn repack_fold(
    entries: Seq<EntryView>,
    source: Seq<u8>,
    files: Seq<(Seq<char>, Seq<u8>)>,
    is_old_format: bool,
    start: nat,
    k: nat,
) -> Result<RepackState, ArchiveError>
    decreases k,
{
    if k == 0 {
        Ok(RepackState { region: Seq::empty(), entries: Seq::empty(), table: Seq::empty() })
    } else {
        match repack_fold(entries, source, files, is_old_format, start, (k - 1) as nat) {
            Err(e) => Err(e),
            Ok(st) => repack_step(
                st,
                entries[k - 1],
                k == entries.len(),
                source,
                files,
                is_old_format,
                start,
            ),
        }
    }
}

/// The header that opens an archive: signature, version and entry count.
pub open spec fn preamble(version: MpkVersion, count: u64) -> Seq<u8> {
    mpk_magic() + le_bytes(version.minor as nat, 2) + le_bytes(version.major as nat, 2) + le_bytes(
        count as nat,
        count_width(version.is_old_format),
    )
}

/// Where the data of a repacked archive starts: at the first entry's offset.
pub open spec fn data_start(a: ArchiveView) -> nat {
    if a.entries.len() == 0 {
        first_header_offset(a.version.is_old_format)
    } else {
        a.entries[0].offset as nat
    }
}

/// What repacking the archive `a`, read from `source`, gives once every
/// replacement file names an entry: the new archive and its bytes.
pub open spec fn repacked_archive(
    a: ArchiveView,
    source: Seq<u8>,
    files: Seq<(Seq<char>, Seq<u8>)>,
) -> Result<(ArchiveView, Seq<u8>), ArchiveError> {
    let is_old_format = a.version.is_old_format;
    let start = data_start(a);
    if a.entries.len() > 0 && start > source.len() {
        Err(ArchiveError::TruncatedRead)
    } else {
        match repack_fold(a.entries, source, files, is_old_format, start, a.entries.len()) {
            Err(e) => Err(e),
            Ok(st) => Ok(
                (
                    ArchiveView { entries: st.entries, ..a },
                    place(
                        place(preamble(a.version, a.reported_entry_count), start, st.region),
                        first_header_offset(is_old_format),
                        st.table,
                    ),
                ),
            ),
        }
    }
}

pub(crate) proof fn lemma_repack_fold_next(
    entries: Seq<EntryView>,
    source: Seq<u8>,
    files: Seq<(Seq<char>, Seq<u8>)>,
    is_old_format: bool,
    start: nat,
    k: nat,
)
    requires
        k < entries.len(),
    ensures
        repack_fold(entries, source, files, is_old_format, start, k + 1) == match repack_fold(
            entries,
            source,
            files,
            is_old_format,
            start,
            k,
        ) {
            Err(e) => Err(e),
            Ok(st) => repack_step(
                st,
                entries[k as int],
                k + 1 == entries.len(),
                source,
                files,
                is_old_format,
                start,
            ),
        },
{
    reveal(repack_fold);
}

pub(crate) proof fn lemma_repack_fold_error_stays(
    entries: Seq<EntryView>,
    source: Seq<u8>,
    files: Seq<(Seq<char>, Seq<u8>)>,
    is_old_format: bool,
    start: nat,
    k: nat,
    n: nat,
)
    requires
        k <= n,
        repack_fold(entries, source, files, is_old_format, start, k) is Err,
    ensures
        repack_fold(entries, source, files, is_old_format, start, n) == repack_fold(
            entries,
            source,
            files,
            is_old_format,
            start,
            k,
        ),
    decreases n - k,
{
    reveal(repack_fold);
    if k < n {
        let m = (n - 1) as nat;
        lemma_repack_fold_error_stays(entries, source, files, is_old_format, start, k, m);
    }
}

/// In a repack's output every entry but the first starts on a multiple of the
/// alignment, and the first starts at `start`.
proof fn lemma_repack_fold_aligned(
    entries: Seq<EntryView>,
    source: Seq<u8>,
    files: Seq<(Seq<char>, Seq<u8>)>,
    is_old_format: bool,
    start: nat,
    k: nat,
)
    requires
        k <= entries.len(),
        repack_fold(entries, source, files, is_old_format, start, k) is Ok,
    ensures
        ({
            let st = repack_fold(entries, source, files, is_old_format, start, k).unwrap();
            &&& st.entries.len() == k
            &&& k > 0 ==> st.entries[0].offset == start
            &&& 0 < k < entries.len() ==> (start + st.region.len()) % (ALIGNMENT as nat) == 0
            &&& 0 < k == entries.len() ==> start + st.region.len() == st.entries[k - 1].offset
                + st.entries[k - 1].len_compressed
            &&& forall|j: int|
                0 < j < k ==> (#[trigger] st.entries[j]).offset % ALIGNMENT == 0
        }),
    decreases k,
{
    reveal(repack_fold);
    lemma_pow256_eight();
    if k > 0 {
        let m = (k - 1) as nat;
        if repack_fold(entries, source, files, is_old_format, start, m) is Err {
            lemma_repack_fold_error_stays(entries, source, files, is_old_format, start, m, k);
        }
        lemma_repack_fold_aligned(entries, source, files, is_old_format, start, m);
        let st = repack_fold(entries, source, files, is_old_format, start, m).unwrap();
        let nx = repack_fold(entries, source, files, is_old_format, start, k).unwrap();
        let e = entries[m as int];
        let data = stored_data(e, source, files);
        let end = start + st.region.len() + data.len();
        assert(nx.entries == st.entries.push(nx.entries[m as int]));
        assert(nx.entries[m as int].offset == start + st.region.len());
        if k < entries.len() {
            assert(nx.region == st.region + data + zeros(alignment_padding(end)));
            lemma_aligned_after_padding(end);
        } else {
            assert(nx.region == st.region + data + zeros(0));
            assert(nx.entries[m as int].len_compressed == data.len());
        }
    }
}

proof fn lemma_aligned_after_padding(end: nat)
    ensures
        (end + alignment_padding(end)) % (ALIGNMENT as nat) == 0,
{
    assert((end + alignment_padding(end)) % 2048 == 0) by (nonlinear_arith)
        requires
            alignment_padding(end) == if end % 2048 == 0 {
                0
            } else {
                (2048 - end % 2048) as nat
            },
    {
        vstd::arithmetic::div_mod::lemma_fundamental_div_mod(end as int, 2048);
        vstd::arithmetic::div_mod::lemma_mod_bound(end as int, 2048);
        if end % 2048 != 0 {
            vstd::arithmetic::div_mod::lemma_mod_multiples_basic((end / 2048 + 1) as int, 2048);
            assert(end + alignment_padding(end) == (end / 2048 + 1) * 2048);
        }
    }
}

/// Every entry of a repacked archive but the first starts on a multiple of the
/// alignment; the first starts where the repacked archive's first entry did.
pub proof fn lemma_repack_alignment(
    a: ArchiveView,
    source: Seq<u8>,
    files: Seq<(Seq<char>, Seq<u8>)>,
)
    requires
        repacked_archive(a, source, files) is Ok,
    ensures
        ({
            let b = repacked_archive(a, source, files).unwrap().0;
            &&& b.entries.len() == a.entries.len()
            &&& b.entries.len() > 0 ==> b.entries[0].offset == a.entries[0].offset
            &&& forall|j: int|
                0 < j < b.entries.len() ==> (#[trigger] b.entries[j]).offset % ALIGNMENT == 0
        }),
{
    lemma_repack_fold_aligned(
        a.entries,
        source,
        files,
        a.version.is_old_format,
        data_start(a),
        a.entries.len(),
    );
}

/// Whether the new entry `ne` is the entry `e` stored in `region` (which starts
/// at `start`) as a repack stores it.
pub open spec fn laid_out(
    ne: EntryView,
    e: EntryView,
    region: Seq<u8>,
    start: nat,
    source: Seq<u8>,
    files: Seq<(Seq<char>, Seq<u8>)>,
) -> bool {
    let data = stored_data(e, source, files);
    &&& ne.id == e.id
    &&& ne.name == e.name
    &&& ne.compressed == e.compressed
    &&& ne.cpr_indicator == e.cpr_indicator
    &&& ne.len_deflated == match replacement_for(files, e.name) {
        Some(c) => c.len() as u64,
        None => e.len_deflated,
    }
    &&& ne.len_compressed == data.len()
    &&& (replacement_for(files, e.name) is None ==> e.offset + e.len_compressed <= source.len())
    &&& start <= ne.offset
    &&& ne.offset + ne.len_compressed <= start + region.len()
    &&& region.subrange(ne.offset - start, ne.offset - start + ne.len_compressed) == data
}

/// The bytes of `out` that the entry `e` says it occupies.
pub open spec fn stored_in(out: Seq<u8>, e: EntryView) -> Seq<u8> {
    out.subrange(e.offset as int, e.offset + e.len_compressed)
}

proof fn lemma_record_len(is_old_format: bool, e: EntryView)
    requires
        record_result(is_old_format, e) is Ok,
    ensures
        record_result(is_old_format, e).unwrap().len() == RECORD_LEN,
{
    lemma_le_bytes_len(e.id as nat, 4);
    lemma_le_bytes_len(e.offset as nat, 4);
    lemma_le_bytes_len(e.offset as nat, 8);
    lemma_le_bytes_len(e.len_compressed as nat, 4);
    lemma_le_bytes_len(e.len_compressed as nat, 8);
    lemma_le_bytes_len(e.len_deflated as nat, 4);
    lemma_le_bytes_len(e.len_deflated as nat, 8);
    lemma_le_bytes_len(e.cpr_indicator as nat, 4);
}

pub(crate) proof fn lemma_repack_fold_layout(
    entries: Seq<EntryView>,
    source: Seq<u8>,
    files: Seq<(Seq<char>, Seq<u8>)>,
    is_old_format: bool,
    start: nat,
    k: nat,
)
    requires
        k <= entries.len(),
        repack_fold(entries, source, files, is_old_format, start, k) is Ok,
    ensures
        ({
            let st = repack_fold(entries, source, files, is_old_format, start, k).unwrap();
            &&& st.entries.len() == k
            &&& st.table.len() == RECORD_LEN * k
            &&& forall|j: int|
                0 <= j < k ==> record_result(is_old_format, #[trigger] st.entries[j]) is Ok
                    && st.table.subrange(RECORD_LEN * j, RECORD_LEN * j + RECORD_LEN)
                    == encode_record(is_old_format, st.entries[j])
            &&& forall|j: int|
                0 <= j < k ==> laid_out(
                    #[trigger] st.entries[j],
                    entries[j],
                    st.region,
                    start,
                    source,
                    files,
                )
        }),
    decreases k,
{
    reveal(repack_fold);
    lemma_pow256_eight();
    if k > 0 {
        let m = (k - 1) as nat;
        if repack_fold(entries, source, files, is_old_format, start, m) is Err {
            lemma_repack_fold_error_stays(entries, source, files, is_old_format, start, m, k);
        }
        lemma_repack_fold_layout(entries, source, files, is_old_format, start, m);
        let st = repack_fold(entries, source, files, is_old_format, start, m).unwrap();
        let nx = repack_fold(entries, source, files, is_old_format, start, k).unwrap();
        let e = entries[m as int];
        let data = stored_data(e, source, files);
        let end = start + st.region.len() + data.len();
        let pad = if k == entries.len() {
            0
        } else {
            alignment_padding(end)
        };
        let ne = nx.entries[m as int];
        assert(nx.region == st.region + data + zeros(pad));
        assert(nx.entries == st.entries.push(ne));
        lemma_record_len(is_old_format, ne);
        assert(nx.table == st.table + encode_record(is_old_format, ne));
        assert forall|j: int| 0 <= j < k implies record_result(
            is_old_format,
            #[trigger] nx.entries[j],
        ) is Ok && nx.table.subrange(RECORD_LEN * j, RECORD_LEN * j + RECORD_LEN) == encode_record(
            is_old_format,
            nx.entries[j],
        ) by {
            if j < m {
                assert(nx.entries[j] == st.entries[j]);
                assert(nx.table.subrange(RECORD_LEN * j, RECORD_LEN * j + RECORD_LEN)
                    =~= st.table.subrange(RECORD_LEN * j, RECORD_LEN * j + RECORD_LEN));
            } else {
                assert(nx.table.subrange(RECORD_LEN * j, RECORD_LEN * j + RECORD_LEN)
                    =~= encode_record(is_old_format, ne));
            }
        }
        assert forall|j: int| 0 <= j < k implies laid_out(
            #[trigger] nx.entries[j],
            entries[j],
            nx.region,
            start,
            source,
            files,
        ) by {
            if j < m {
                let o = st.entries[j];
                assert(nx.entries[j] == o);
                assert(laid_out(o, entries[j], st.region, start, source, files));
                assert(nx.region.subrange(o.offset - start, o.offset - start + o.len_compressed)
                    =~= st.region.subrange(o.offset - start, o.offset - start + o.len_compressed));
            } else {
                assert(ne.offset == start + st.region.len());
                assert(nx.region.subrange(ne.offset - start, ne.offset - start + ne.len_compressed)
                    =~= data);
            }
        }
    }
}

/// A repack stores, for each entry in order, the replacement file's contents
/// (compressed where the entry is) or the entry's stored bytes in `source`, and
/// keeps each entry's ID, name and compression; where the table ends before the
/// data starts, those bytes are what the new archive's entries point at.
pub proof fn lemma_repack_stores(a: ArchiveView, source: Seq<u8>, files: Seq<(Seq<char>, Seq<u8>)>)
    requires
        repacked_archive(a, source, files) is Ok,
        first_header_offset(a.version.is_old_format) + RECORD_LEN * a.entries.len() <= data_start(
            a,
        ),
    ensures
        ({
            let (b, out) = repacked_archive(a, source, files).unwrap();
            &&& b.entries.len() == a.entries.len()
            &&& b.version == a.version
            &&& b.reported_entry_count == a.reported_entry_count
            &&& b.entries.len() > 0 ==> out.len() == b.entries.last().offset
                + b.entries.last().len_compressed
            &&& forall|k: int|
                0 <= k < b.entries.len() ==> {
                    let ne = #[trigger] b.entries[k];
                    let e = a.entries[k];
                    &&& ne.id == e.id
                    &&& ne.name == e.name
                    &&& ne.compressed == e.compressed
                    &&& ne.offset + ne.len_compressed <= out.len()
                    &&& stored_in(out, ne) == stored_data(e, source, files)
                }
        }),
{
    let is_old_format = a.version.is_old_format;
    let start = data_start(a);
    let n = a.entries.len();
    lemma_repack_fold_layout(a.entries, source, files, is_old_format, start, n);
    lemma_repack_fold_aligned(a.entries, source, files, is_old_format, start, n);
    let st = repack_fold(a.entries, source, files, is_old_format, start, n).unwrap();
    let t = first_header_offset(is_old_format);
    let pre = preamble(a.version, a.reported_entry_count);
    lemma_le_bytes_len(a.version.minor as nat, 2);
    lemma_le_bytes_len(a.version.major as nat, 2);
    lemma_le_bytes_len(a.reported_entry_count as nat, count_width(is_old_format));
    let inner = place(pre, start, st.region);
    let out = place(inner, t, st.table);
    let (b, o) = repacked_archive(a, source, files).unwrap();
    assert(o == out);
    assert forall|k: int| 0 <= k < b.entries.len() implies {
        let ne = #[trigger] b.entries[k];
        let e = a.entries[k];
        &&& ne.id == e.id
        &&& ne.name == e.name
        &&& ne.compressed == e.compressed
        &&& ne.offset + ne.len_compressed <= out.len()
        &&& stored_in(out, ne) == stored_data(e, source, files)
    } by {
        let ne = b.entries[k];
        assert(laid_out(st.entries[k], a.entries[k], st.region, start, source, files));
        assert(stored_in(out, ne) =~= st.region.subrange(
            ne.offset - start,
            ne.offset - start + ne.len_compressed,
        ));
    }
}

/// Whether the new entry `ne` extracts from `out` as the repack of `e` should:
/// to the replacement file's contents, or to what `e` extracted to from `source`.
pub open spec fn extracts_as_repacked(
    ne: EntryView,
    e: EntryView,
    out: Seq<u8>,
    source: Seq<u8>,
    files: Seq<(Seq<char>, Seq<u8>)>,
) -> bool {
    match replacement_for(files, e.name) {
        Some(c) => extracted(ne, out) == Ok::<Seq<u8>, ArchiveError>(c),
        None => extracted(ne, out) == extracted(e, source),
    }
}

/// Whether decompressing the compressed replacement of `e`, if any, gives its contents back.
pub open spec fn compression_reverses(e: EntryView, files: Seq<(Seq<char>, Seq<u8>)>) -> bool {
    match replacement_for(files, e.name) {
        Some(c) => e.compressed ==> zlib_inflated(zlib_deflated(c)) == Some(c),
        None => true,
    }
}

/// Where the table ends before the data starts, each entry of a repacked
/// archive extracts from the new bytes to its replacement file's contents, or
/// to what it extracted to from `source` (given, for a compressed
/// replacement, that decompression reverses compression).
pub proof fn lemma_repack_extracts(
    a: ArchiveView,
    source: Seq<u8>,
    files: Seq<(Seq<char>, Seq<u8>)>,
    k: int,
)
    requires
        repacked_archive(a, source, files) is Ok,
        first_header_offset(a.version.is_old_format) + RECORD_LEN * a.entries.len() <= data_start(
            a,
        ),
        0 <= k < a.entries.len(),
        compression_reverses(a.entries[k], files),
    ensures
        ({
            let (b, out) = repacked_archive(a, source, files).unwrap();
            extracts_as_repacked(b.entries[k], a.entries[k], out, source, files)
        }),
{
    let is_old_format = a.version.is_old_format;
    let start = data_start(a);
    lemma_repack_stores(a, source, files);
    lemma_repack_fold_layout(a.entries, source, files, is_old_format, start, a.entries.len());
    let st = repack_fold(a.entries, source, files, is_old_format, start, a.entries.len()).unwrap();
    let (b, out) = repacked_archive(a, source, files).unwrap();
    assert(laid_out(st.entries[k], a.entries[k], st.region, start, source, files));
    assert(b.entries[k] == st.entries[k]);
    let e = a.entries[k];
    let ne = b.entries[k];
    assert(stored_in(out, ne) == stored_data(e, source, files));
}


} // verus!

//! The archive model, its parser and its repack engine.

use indexmap::IndexMap;
use vstd::prelude::*;
use vstd::utf8::*;

use crate::bytes::{
    alignment_padding, append_range, le_value, lemma_le_value_bound, lemma_pow256_eight, place,
    pow256, push_le, read_le, write_alignment_padding, write_at, zeros, ALIGNMENT,
};
use crate::entry::{
    count_width, decode_record, extracted, first_header_offset, EntryView, MagesEntry, MpkVersion,
    RECORD_LEN,
};
use crate::entry_map::{
    map_get, map_get_index, map_insert, map_len, map_new, map_pairs, pairs_have_key, pairs_hold,
    pairs_inserted,
};
use crate::error::ArchiveError;
use crate::repack::{
    compression_reverses, data_start, extracts_as_repacked, files_view, first_unknown,
    lemma_repack_alignment, lemma_repack_extracts, lemma_repack_fold_error_stays,
    lemma_repack_fold_next, lemma_repack_stores, names_an_entry, preamble, repack_fold,
    repacked_archive,
    replacement_for, RepackFile, RepackState,
};

verus! {

/// The four bytes that open every archive: `MPK\0`.
pub open spec fn mpk_magic() -> Seq<u8> {
    seq![0x4Du8, 0x50u8, 0x4Bu8, 0x00u8]
}

/// What an archive holds, as plain values.
pub struct ArchiveView {
    pub version: MpkVersion,
    pub reported_entry_count: u64,
    pub entries: Seq<EntryView>,
}

/// The version and the entry count that the header of `data` gives.
pub open spec fn header_result(data: Seq<u8>) -> Result<(MpkVersion, u64), ArchiveError> {
    if data.len() < 4 {
        Err(ArchiveError::TruncatedRead)
    } else if data.subrange(0, 4) != mpk_magic() {
        Err(ArchiveError::BadSignature)
    } else if data.len() < 8 {
        Err(ArchiveError::TruncatedRead)
    } else {
        let minor = le_value(data.subrange(4, 6)) as u16;
        let major = le_value(data.subrange(6, 8)) as u16;
        if major != 1 && major != 2 {
            Err(ArchiveError::UnsupportedVersion(major))
        } else {
            let is_old_format = major == 1;
            let width = count_width(is_old_format);
            if data.len() < 8 + width {
                Err(ArchiveError::TruncatedRead)
            } else {
                Ok(
                    (
                        MpkVersion { major, minor, is_old_format },
                        le_value(data.subrange(8, 8 + width as int)) as u64,
                    ),
                )
            }
        }
    }
}

/// The `i`-th record of the entry table that starts at `start`.
pub open spec fn record_at(data: Seq<u8>, start: nat, i: nat) -> Seq<u8> {
    data.subrange(start + RECORD_LEN * i, start + RECORD_LEN * i + RECORD_LEN)
}

/// The entries after adding `e`: an entry with the same ID is replaced in its
/// place; otherwise `e` goes last.
pub open spec fn insert_entry(s: Seq<EntryView>, e: EntryView) -> Seq<EntryView> {
    if exists|i: int| 0 <= i < s.len() && s[i].id == e.id {
        let i = choose|i: int| 0 <= i < s.len() && s[i].id == e.id;
        s.update(i, e)
    } else {
        s.push(e)
    }
}

/// The entries that the first `n` records of the table give: each record is
/// decoded in turn, and one whose offset is 0 is left out.
#[verifier::opaque]
pub open spec fn table_entries(data: Seq<u8>, is_old_format: bool, start: nat, n: nat) -> Result<
    Seq<EntryView>,
    ArchiveError,
>
    decreases n,
{
    if n == 0 {
        Ok(Seq::empty())
    } else {
        match table_entries(data, is_old_format, start, (n - 1) as nat) {
            Err(e) => Err(e),
            Ok(s) => match decode_record(is_old_format, record_at(data, start, (n - 1) as nat)) {
                None => Err(ArchiveError::MalformedName),
                Some(e) => Ok(
                    if e.offset == 0 {
                        s
                    } else {
                        insert_entry(s, e)
                    },
                ),
            },
        }
    }
}

/// How many of the first `n` records replaced an earlier entry with the same ID.
pub open spec fn overwritten_count(data: Seq<u8>, is_old_format: bool, start: nat, n: nat) -> nat
    decreases n,
{
    if n == 0 {
        0
    } else {
        let prev = overwritten_count(data, is_old_format, start, (n - 1) as nat);
        let s = table_entries(data, is_old_format, start, (n - 1) as nat);
        let e = decode_record(is_old_format, record_at(data, start, (n - 1) as nat));
        if s is Ok && e is Some && e.unwrap().offset != 0 && exists|i: int|
            0 <= i < s.unwrap().len() && s.unwrap()[i].id == e.unwrap().id {
            prev + 1
        } else {
            prev
        }
    }
}

/// What parsing the archive bytes `data` gives.
pub open spec fn parsed(data: Seq<u8>) -> Result<ArchiveView, ArchiveError> {
    match header_result(data) {
        Err(e) => Err(e),
        Ok((version, count)) => {
            let start = first_header_offset(version.is_old_format);
            if start + RECORD_LEN * count > data.len() {
                Err(ArchiveError::TruncatedRead)
            } else {
                match table_entries(data, version.is_old_format, start, count as nat) {
                    Err(e) => Err(e),
                    Ok(entries) => Ok(
                        ArchiveView { version, reported_entry_count: count, entries },
                    ),
                }
            }
        }
    }
}

/// The entries that a list of map pairs holds.
pub open spec fn pair_values(s: Seq<(u32, MagesEntry)>) -> Seq<EntryView> {
    s.map_values(|p: (u32, MagesEntry)| p.1@)
}

/// Map pairs whose keys are the IDs of their values, each key once, every offset above 0.
pub open spec fn pairs_wf(s: Seq<(u32, MagesEntry)>) -> bool {
    &&& forall|i: int| 0 <= i < s.len() ==> s[i].0 == (#[trigger] s[i]).1@.id
    &&& forall|i: int, j: int| 0 <= i < j < s.len() ==> s[i].0 != s[j].0
    &&& forall|i: int| 0 <= i < s.len() ==> (#[trigger] s[i]).1@.offset > 0
}

proof fn lemma_insert_pairs(s: Seq<(u32, MagesEntry)>, e: MagesEntry)
    requires
        pairs_wf(s),
        e@.offset > 0,
    ensures
        pairs_wf(pairs_inserted(s, e@.id, e)),
        pair_values(pairs_inserted(s, e@.id, e)) == insert_entry(pair_values(s), e@),
{
    let v = pair_values(s);
    let k = e@.id;
    if exists|i: int| 0 <= i < s.len() && s[i].0 == k {
        let i = choose|i: int| 0 <= i < s.len() && s[i].0 == k;
        assert(v[i].id == k);
        let j = choose|j: int| 0 <= j < v.len() && v[j].id == k;
        assert(s[j].0 == k);
        assert(i == j);
        assert(pair_values(s.update(i, (k, e))) =~= v.update(i, e@));
    } else {
        assert(!exists|j: int| 0 <= j < v.len() && v[j].id == k) by {
            if exists|j: int| 0 <= j < v.len() && v[j].id == k {
                let j = choose|j: int| 0 <= j < v.len() && v[j].id == k;
                assert(s[j].0 == k);
            }
        }
        assert(pair_values(s.push((k, e))) =~= v.push(e@));
    }
}

pub(crate) proof fn lemma_table_entries_next(
    data: Seq<u8>,
    is_old_format: bool,
    start: nat,
    i: nat,
    s: Seq<EntryView>,
    e: EntryView,
)
    requires
        table_entries(data, is_old_format, start, i) == Ok::<Seq<EntryView>, ArchiveError>(s),
        decode_record(is_old_format, record_at(data, start, i)) == Some(e),
    ensures
        table_entries(data, is_old_format, start, i + 1) == Ok::<Seq<EntryView>, ArchiveError>(
            if e.offset == 0 {
                s
            } else {
                insert_entry(s, e)
            },
        ),
{
    reveal(table_entries);
}

proof fn lemma_table_entries_malformed(
    data: Seq<u8>,
    is_old_format: bool,
    start: nat,
    i: nat,
    s: Seq<EntryView>,
)
    requires
        table_entries(data, is_old_format, start, i) == Ok::<Seq<EntryView>, ArchiveError>(s),
        decode_record(is_old_format, record_at(data, start, i)) is None,
    ensures
        table_entries(data, is_old_format, start, i + 1) == Err::<Seq<EntryView>, ArchiveError>(
            ArchiveError::MalformedName,
        ),
{
    reveal(table_entries);
}

pub(crate) proof fn lemma_table_error_stays(
    data: Seq<u8>,
    is_old_format: bool,
    start: nat,
    k: nat,
    n: nat,
)
    requires
        k <= n,
        table_entries(data, is_old_format, start, k) is Err,
    ensures
        table_entries(data, is_old_format, start, n) == table_entries(
            data,
            is_old_format,
            start,
            k,
        ),
    decreases n - k,
{
    reveal(table_entries);
    if k < n {
        lemma_table_error_stays(data, is_old_format, start, k, (n - 1) as nat);
    }
}

/// Whether no two entries share an ID.
pub open spec fn ids_distinct(entries: Seq<EntryView>) -> bool {
    forall|i: int, j: int| 0 <= i < j < entries.len() ==> entries[i].id != entries[j].id
}

/// The model's invariant: IDs are unique and every offset is above 0.
pub open spec fn entries_wf(entries: Seq<EntryView>) -> bool {
    &&& ids_distinct(entries)
    &&& forall|i: int| 0 <= i < entries.len() ==> (#[trigger] entries[i]).offset > 0
}

proof fn lemma_pairs_wf_view(s: Seq<(u32, MagesEntry)>)
    requires
        pairs_wf(s),
    ensures
        entries_wf(pair_values(s)),
{
    let v = pair_values(s);
    assert forall|i: int, j: int| 0 <= i < j < v.len() implies v[i].id != v[j].id by {
        assert(s[i].0 == s[i].1@.id && s[j].0 == s[j].1@.id);
    }
    assert forall|i: int| 0 <= i < v.len() implies (#[trigger] v[i]).offset > 0 by {
        assert(s[i].1@.offset > 0);
    }
}

/// An archive: its version, the entry count that its header reports, and its
/// entries in table order, keyed by ID.
#[derive(Debug)]
pub struct MagesArchive {
    entries: IndexMap<u32, MagesEntry>,
    version: MpkVersion,
    reported_entry_count: u64,
    overwritten: u64,
}

impl View for MagesArchive {
    type V = ArchiveView;

    closed spec fn view(&self) -> ArchiveView {
        ArchiveView {
            version: self.version,
            reported_entry_count: self.reported_entry_count,
            entries: pair_values(map_pairs(self.entries)),
        }
    }
}

impl MagesArchive {
    /// The archive's invariant: a version that this library handles, a count
    /// that fits the header, and well-formed entries.
    pub closed spec fn wf(&self) -> bool {
        &&& self.version.valid()
        &&& self.version.is_old_format ==> self.reported_entry_count < pow256(4)
        &&& pairs_wf(map_pairs(self.entries))
    }

    /// The number of table records that replaced an earlier entry with the same ID.
    pub closed spec fn spec_overwritten(&self) -> nat {
        self.overwritten as nat
    }

    /// The number of table records that replaced an earlier entry with the
    /// same ID while the archive was parsed.
    pub fn overwritten_records(&self) -> (r: u64)
        ensures
            r == self.spec_overwritten(),
    {
        self.overwritten
    }

    /// Parses the archive bytes `data`. An entry whose ID an earlier one has
    /// takes that entry's place; such records are counted.
    #[verifier::spinoff_prover]
    pub fn build(data: &[u8]) -> (r: Result<MagesArchive, ArchiveError>)
        ensures
            match r {
                Ok(a) => a.wf() && entries_wf(a@.entries) && parsed(data@) == Ok::<
                    ArchiveView,
                    ArchiveError,
                >(a@) && ({
                    let (version, count) = header_result(data@).unwrap();
                    a.spec_overwritten() == overwritten_count(
                        data@,
                        version.is_old_format,
                        first_header_offset(version.is_old_format),
                        count as nat,
                    )
                }),
                Err(e) => parsed(data@) == Err::<ArchiveView, ArchiveError>(e),
            },
    {
        let len = data.len();
        if len < 4 {
            return Err(ArchiveError::TruncatedRead);
        }
        if !(data[0] == 0x4D && data[1] == 0x50 && data[2] == 0x4B && data[3] == 0x00) {
            proof {
                assert(data@.subrange(0, 4) != mpk_magic()) by {
                    if data@.subrange(0, 4) == mpk_magic() {
                        assert(data@.subrange(0, 4)[0] == data@[0]);
                        assert(data@.subrange(0, 4)[1] == data@[1]);
                        assert(data@.subrange(0, 4)[2] == data@[2]);
                        assert(data@.subrange(0, 4)[3] == data@[3]);
                    }
                }
            }
            return Err(ArchiveError::BadSignature);
        }
        proof {
            assert(data@.subrange(0, 4) =~= mpk_magic());
        }
        if len < 8 {
            return Err(ArchiveError::TruncatedRead);
        }
        let minor = read_le(data, 4, 2);
        let major = read_le(data, 6, 2);
        proof {
            lemma_le_value_bound(data@.subrange(4, 6));
            lemma_le_value_bound(data@.subrange(6, 8));
            lemma_pow256_eight();
        }
        let version = match MpkVersion::build(major as u16, minor as u16) {
            Ok(v) => v,
            Err(e) => return Err(e),
        };
        let width = version.count_width();
        if len < 8 + width {
            return Err(ArchiveError::TruncatedRead);
        }
        let count = read_le(data, 8, width);
        proof {
            lemma_le_value_bound(data@.subrange(8, 8 + width));
        }
        let start = version.first_header_offset();
        if start > len || count > ((len - start) / RECORD_LEN) as u64 {
            return Err(ArchiveError::TruncatedRead);
        }
        assert(start + RECORD_LEN * count <= len) by (nonlinear_arith)
            requires
                count <= (len - start) / (RECORD_LEN as int),
                start <= len,
                RECORD_LEN == 256,
        ;
        proof {
            lemma_pow256_eight();
            assert(header_result(data@) == Ok::<(MpkVersion, u64), ArchiveError>((version, count)));
        }
        let mut entries = map_new();
        proof {
            assert(pair_values(map_pairs(entries)) =~= Seq::<EntryView>::empty());
            reveal(table_entries);
        }
        let mut overwritten: u64 = 0;
        let mut i: u64 = 0;
        while i < count
            invariant
                i <= count,
                header_result(data@) == Ok::<(MpkVersion, u64), ArchiveError>((version, count)),
                start == first_header_offset(version.is_old_format),
                start + RECORD_LEN * count <= len == data@.len(),
                pairs_wf(map_pairs(entries)),
                overwritten <= i,
                overwritten == overwritten_count(
                    data@,
                    version.is_old_format,
                    start as nat,
                    i as nat,
                ),
                table_entries(data@, version.is_old_format, start as nat, i as nat) == Ok::<
                    Seq<EntryView>,
                    ArchiveError,
                >(pair_values(map_pairs(entries))),
            decreases count - i,
        {
            assert(start + RECORD_LEN * i + RECORD_LEN <= len) by (nonlinear_arith)
                requires
                    i < count,
                    start + RECORD_LEN * count <= len,
            ;
            let pos = start + (i as usize) * RECORD_LEN;
            let entry = match MagesEntry::read(data, pos, &version) {
                Ok(e) => e,
                Err(e) => {
                    proof {
                        assert(record_at(data@, start as nat, i as nat) =~= data@.subrange(
                            pos as int,
                            pos + RECORD_LEN,
                        ));
                        lemma_table_entries_malformed(
                            data@,
                            version.is_old_format,
                            start as nat,
                            i as nat,
                            pair_values(map_pairs(entries)),
                        );
                        lemma_table_error_stays(
                            data@,
                            version.is_old_format,
                            start as nat,
                            (i + 1) as nat,
                            count as nat,
                        );
                    }
                    return Err(e);
                },
            };
            proof {
                assert(record_at(data@, start as nat, i as nat) =~= data@.subrange(
                    pos as int,
                    pos + RECORD_LEN,
                ));
                lemma_table_entries_next(
                    data@,
                    version.is_old_format,
                    start as nat,
                    i as nat,
                    pair_values(map_pairs(entries)),
                    entry@,
                );
                let v = pair_values(map_pairs(entries));
                let rec = record_at(data@, start as nat, i as nat);
                assert(decode_record(version.is_old_format, rec) == Some(entry@));
            }
            if entry.offset() != 0 {
                let seen = map_get(&entries, entry.id()).is_some();
                proof {
                    let s = map_pairs(entries);
                    let v = pair_values(s);
                    let t = table_entries(data@, version.is_old_format, start as nat, i as nat);
                    assert(t == Ok::<Seq<EntryView>, ArchiveError>(v));
                    if seen {
                        let j = choose|j: int| 0 <= j < s.len() && s[j].0 == entry@.id;
                        assert(v[j].id == entry@.id);
                        assert(t.unwrap()[j].id == entry@.id);
                    } else {
                        assert(!exists|j: int| 0 <= j < v.len() && v[j].id == entry@.id) by {
                            if exists|j: int| 0 <= j < v.len() && v[j].id == entry@.id {
                                let j = choose|j: int| 0 <= j < v.len() && v[j].id == entry@.id;
                                assert(s[j].0 == entry@.id);
                            }
                        }
                    }
                    lemma_insert_pairs(map_pairs(entries), entry);
                }
                if seen {
                    overwritten = overwritten + 1;
                }
                map_insert(&mut entries, entry.id(), entry);
            } else {
                proof {
                    assert(overwritten_count(
                        data@,
                        version.is_old_format,
                        start as nat,
                        (i + 1) as nat,
                    ) == overwritten);
                }
            }
            i = i + 1;
        }
        proof {
            lemma_pow256_eight();
        }
        proof {
            lemma_pairs_wf_view(map_pairs(entries));
        }
        Ok(MagesArchive { entries, version, reported_entry_count: count, overwritten })
    }

    /// The number of entries.
    pub fn len(&self) -> (r: usize)
        ensures
            r == self@.entries.len(),
    {
        map_len(&self.entries)
    }

    /// The entry at position `i` of the table order.
    pub fn entry_at(&self, i: usize) -> (r: Option<&MagesEntry>)
        ensures
            r is Some <==> i < self@.entries.len(),
            r matches Some(e) ==> e@ == self@.entries[i as int],
    {
        map_get_index(&self.entries, i)
    }

    /// The entries in table order.
    pub fn iter(&self) -> (r: Vec<&MagesEntry>)
        ensures
            r@.len() == self@.entries.len(),
            forall|i: int| 0 <= i < r@.len() ==> r@[i]@ == self@.entries[i],
    {
        let n = map_len(&self.entries);
        let mut out: Vec<&MagesEntry> = Vec::new();
        let mut i: usize = 0;
        while i < n
            invariant
                i <= n == self@.entries.len(),
                out@.len() == i,
                forall|j: int| 0 <= j < i ==> out@[j]@ == self@.entries[j],
            decreases n - i,
        {
            match map_get_index(&self.entries, i) {
                Some(e) => out.push(e),
                None => {},
            }
            i = i + 1;
        }
        out
    }

    /// The entry with the ID `id`.
    pub fn get_entry_by_id(&self, id: u32) -> (r: Option<&MagesEntry>)
        requires
            self.wf(),
        ensures
            match r {
                Some(e) => entry_with_id(self@.entries, id) == Some(e@),
                None => entry_with_id(self@.entries, id) is None,
            },
    {
        let r = map_get(&self.entries, id);
        proof {
            let s = map_pairs(self.entries);
            let v = self@.entries;
            if exists|i: int| 0 <= i < v.len() && v[i].id == id {
                let i = choose|i: int| 0 <= i < v.len() && v[i].id == id;
                assert(s[i].0 == id);
                assert(pairs_have_key(s, id));
                let e = *r.unwrap();
                assert(pairs_hold(s, id, e));
                let j = choose|j: int| 0 <= j < s.len() && s[j].0 == id && s[j].1 == e;
                assert(i == j);
            } else {
                if pairs_have_key(s, id) {
                    let j = choose|j: int| 0 <= j < s.len() && s[j].0 == id;
                    assert(v[j].id == id);
                }
            }
        }
        r
    }

    /// The last entry, in table order, whose name matches `name` up to case.
    pub fn get_entry_by_name(&self, name: &str) -> (r: Option<&MagesEntry>)
        ensures
            match r {
                Some(e) => entry_named(self@.entries, name@) == Some(e@),
                None => entry_named(self@.entries, name@) is None,
            },
    {
        let folded = lowercase(name);
        self.get_entry_by_folded_name(folded.as_str())
    }

    /// The last entry, in table order, whose name in lower case is `folded`.
    pub fn get_entry_by_folded_name(&self, folded: &str) -> (r: Option<&MagesEntry>)
        ensures
            match r {
                Some(e) => entry_with_folded_name(self@.entries, folded@) == Some(e@),
                None => entry_with_folded_name(self@.entries, folded@) is None,
            },
    {
        let n = map_len(&self.entries);
        let mut i: usize = n;
        proof {
            assert(self@.entries.subrange(0, n as int) =~= self@.entries);
        }
        while i > 0
            invariant
                i <= n == self@.entries.len(),
                entry_with_folded_name(self@.entries, folded@) == entry_with_folded_name(
                    self@.entries.subrange(0, i as int),
                    folded@,
                ),
            decreases i,
        {
            let ghost prefix = self@.entries.subrange(0, i as int);
            proof {
                assert(prefix.drop_last() =~= self@.entries.subrange(0, i - 1));
            }
            match map_get_index(&self.entries, i - 1) {
                Some(e) => {
                    let lower = lowercase(e.name());
                    if same_text(lower.as_str(), folded) {
                        return Some(e);
                    }
                },
                None => {},
            }
            i = i - 1;
        }
        None
    }

    /// The rows of a listing: ID, name, content size, offset and whether the
    /// entry is compressed, in table order.
    pub fn list_entries(&self) -> (r: Vec<(u32, String, u64, u64, bool)>)
        ensures
            r@.len() == self@.entries.len(),
            forall|i: int| 0 <= i < r@.len() ==> listing_row(#[trigger] r@[i], self@.entries[i]),
    {
        let n = map_len(&self.entries);
        let mut out: Vec<(u32, String, u64, u64, bool)> = Vec::new();
        let mut i: usize = 0;
        while i < n
            invariant
                i <= n == self@.entries.len(),
                out@.len() == i,
                forall|j: int|
                    0 <= j < i ==> listing_row(#[trigger] out@[j], self@.entries[j]),
            decreases n - i,
        {
            match map_get_index(&self.entries, i) {
                Some(e) => {
                    let name = e.name().to_owned();
                    out.push((e.id(), name, e.len_deflated(), e.offset(), e.is_compressed()));
                },
                None => {},
            }
            i = i + 1;
        }
        out
    }
}

/// Whether a listing row shows the entry `e`.
pub open spec fn listing_row(row: (u32, String, u64, u64, bool), e: EntryView) -> bool {
    &&& row.0 == e.id
    &&& row.1@ == e.name
    &&& row.2 == e.len_deflated
    &&& row.3 == e.offset
    &&& row.4 == e.compressed
}

/// The entry with the ID `id`, if there is one.
pub open spec fn entry_with_id(entries: Seq<EntryView>, id: u32) -> Option<EntryView> {
    if exists|i: int| 0 <= i < entries.len() && entries[i].id == id {
        Some(entries[choose|i: int| 0 <= i < entries.len() && entries[i].id == id])
    } else {
        None
    }
}

/// A name in lower case, as Unicode defines it.
pub uninterp spec fn lower_of(s: Seq<char>) -> Seq<char>;

/// Relies on `str::to_lowercase`: the result depends on the characters alone.
#[verifier::external_body]
fn lowercase(s: &str) -> (r: String)
    ensures
        r@ == lower_of(s@),
{
    s.to_lowercase()
}

/// Whether two names are equal once both are in lower case.
pub open spec fn names_match(a: Seq<char>, b: Seq<char>) -> bool {
    lower_of(a) == lower_of(b)
}

/// The last entry whose name in lower case is `folded`.
pub open spec fn entry_with_folded_name(entries: Seq<EntryView>, folded: Seq<char>) -> Option<
    EntryView,
>
    decreases entries.len(),
{
    if entries.len() == 0 {
        None
    } else if lower_of(entries.last().name) == folded {
        Some(entries.last())
    } else {
        entry_with_folded_name(entries.drop_last(), folded)
    }
}

/// The last entry whose name matches `name` up to case.
pub open spec fn entry_named(entries: Seq<EntryView>, name: Seq<char>) -> Option<EntryView> {
    entry_with_folded_name(entries, lower_of(name))
}

/// Compares two names up to case.
pub fn names_match_ignoring_case(a: &str, b: &str) -> (r: bool)
    ensures
        r == names_match(a@, b@),
{
    let x = lowercase(a);
    let y = lowercase(b);
    same_text(x.as_str(), y.as_str())
}

/// Whether some entry has exactly the name `name`.
fn has_entry_named(a: &MagesArchive, name: &str) -> (r: bool)
    ensures
        r == names_an_entry(a@.entries, name@),
{
    let n = a.len();
    let mut i: usize = 0;
    while i < n
        invariant
            i <= n == a@.entries.len(),
            forall|j: int| 0 <= j < i ==> a@.entries[j].name != name@,
        decreases n - i,
    {
        match a.entry_at(i) {
            Some(e) => {
                if same_text(e.name(), name) {
                    return true;
                }
            },
            None => {},
        }
        i = i + 1;
    }
    false
}

/// Whether two strings are equal.
pub(crate) fn same_text(a: &str, b: &str) -> (r: bool)
    ensures
        r == (a@ == b@),
{
    let x = a.as_bytes();
    let y = b.as_bytes();
    let n = x.len();
    proof {
        encode_utf8_decode_utf8(a@);
        encode_utf8_decode_utf8(b@);
    }
    if n != y.len() {
        return false;
    }
    let mut i: usize = 0;
    while i < n
        invariant
            i <= n == x@.len() == y@.len(),
            x@ == encode_utf8(a@),
            y@ == encode_utf8(b@),
            forall|j: int| 0 <= j < i ==> x@[j] == y@[j],
        decreases n - i,
    {
        if x[i] != y[i] {
            proof {
                if a@ == b@ {
                    assert(x@[i as int] == y@[i as int]);
                }
            }
            return false;
        }
        i = i + 1;
    }
    proof {
        assert(x@ =~= y@);
    }
    true
}

/// The position of the first replacement file named `name`.
fn find_replacement(files: &Vec<RepackFile>, name: &str) -> (r: Option<usize>)
    ensures
        match r {
            Some(j) => j < files@.len() && replacement_for(files_view(files@), name@) == Some(
                files@[j as int].contents@,
            ),
            None => replacement_for(files_view(files@), name@) is None,
        },
{
    let n = files.len();
    let mut i: usize = 0;
    proof {
        assert(files_view(files@).subrange(0, n as int) =~= files_view(files@));
    }
    while i < n
        invariant
            i <= n == files@.len(),
            replacement_for(files_view(files@), name@) == replacement_for(
                files_view(files@).subrange(i as int, n as int),
                name@,
            ),
        decreases n - i,
    {
        let ghost rest = files_view(files@).subrange(i as int, n as int);
        proof {
            assert(rest.drop_first() =~= files_view(files@).subrange(i + 1, n as int));
        }
        if same_text(files[i].name.as_str(), name) {
            return Some(i);
        }
        i = i + 1;
    }
    proof {
        let ghost none = Seq::<(Seq<char>, Seq<u8>)>::empty();
        assert(files_view(files@).subrange(n as int, n as int) =~= none);
    }
    None
}

impl MagesArchive {
    /// Rewrites the archive read from `source`, with the contents of each entry
    /// that a replacement file names taken from that file (compressed where
    /// the entry is), every other entry's stored bytes copied as they are, each
    /// entry but the last padded to the alignment, and the table rewritten with
    /// the new offsets and sizes. Returns the new archive and its bytes.
    #[verifier::spinoff_prover]
    #[verifier::rlimit(50)]
    pub fn repack_entries(&self, source: &[u8], files: &Vec<RepackFile>) -> (r: Result<
        (MagesArchive, Vec<u8>),
        ArchiveError,
    >)
        requires
            self.wf(),
        ensures
            match first_unknown(self@.entries, files_view(files@)) {
                Some(name) => r matches Err(ArchiveError::UnknownReplacementTarget(n)) && n@
                    == name,
                None => match repacked_archive(self@, source@, files_view(files@)) {
                    Ok((view, bytes)) => r matches Ok((a, out)) && a.wf() && entries_wf(a@.entries)
                        && a@ == view && out@ == bytes,
                    Err(e) => r == Err::<(MagesArchive, Vec<u8>), ArchiveError>(e),
                },
            },
            r matches Ok((a, _)) ==> forall|j: int|
                0 < j < a@.entries.len() ==> (#[trigger] a@.entries[j]).offset % ALIGNMENT == 0,
            r matches Ok((a, out)) ==> (first_header_offset(self@.version.is_old_format)
                + RECORD_LEN * self@.entries.len() <= data_start(self@) && a@.entries.len() > 0
                ==> out@.len() == a@.entries.last().offset + a@.entries.last().len_compressed),
            r matches Ok((a, out)) ==> (first_header_offset(self@.version.is_old_format)
                + RECORD_LEN * self@.entries.len() <= data_start(self@) ==> forall|k: int|
                0 <= k < a@.entries.len() ==> extracts_as_repacked(
                    #[trigger] a@.entries[k],
                    self@.entries[k],
                    out@,
                    source@,
                    files_view(files@),
                )),
    {
        let ghost fv = files_view(files@);
        let nf = files.len();
        let mut j: usize = 0;
        proof {
            assert(fv.subrange(0, nf as int) =~= fv);
        }
        while j < nf
            invariant
                j <= nf == files@.len(),
                fv == files_view(files@),
                first_unknown(self@.entries, fv) == first_unknown(
                    self@.entries,
                    fv.subrange(j as int, nf as int),
                ),
            decreases nf - j,
        {
            let ghost rest = fv.subrange(j as int, nf as int);
            proof {
                assert(rest.drop_first() =~= fv.subrange(j + 1, nf as int));
            }
            if !has_entry_named(self, files[j].name.as_str()) {
                return Err(ArchiveError::UnknownReplacementTarget(files[j].name.clone()));
            }
            j = j + 1;
        }
        proof {
            assert(fv.subrange(nf as int, nf as int) =~= Seq::<(Seq<char>, Seq<u8>)>::empty());
            reveal(repack_fold);
            lemma_pow256_eight();
        }
        let ghost ids = map_pairs(self.entries);
        let n = map_len(&self.entries);
        let is_old = self.version.is_old_format;
        let table_pos = self.version.first_header_offset();
        let start: u64 = if n == 0 {
            table_pos as u64
        } else {
            self.entry_at(0).unwrap().offset()
        };
        if n > 0 && start > source.len() as u64 {
            return Err(ArchiveError::TruncatedRead);
        }
        let mut region: Vec<u8> = Vec::new();
        let mut table: Vec<u8> = Vec::new();
        let mut news = map_new();
        let mut k: usize = 0;
        proof {
            assert(pair_values(map_pairs(news)) =~= Seq::<EntryView>::empty());
        }
        while k < n
            invariant
                k <= n == self@.entries.len() == ids.len(),
                self.wf(),
                ids == map_pairs(self.entries),
                fv == files_view(files@),
                first_unknown(self@.entries, fv) is None,
                is_old == self.version.is_old_format,
                start == data_start(self@),
                n > 0 ==> start <= source@.len(),
                start + region@.len() < pow256(8),
                pow256(8) == 0x1_0000_0000_0000_0000,
                repack_fold(self@.entries, source@, fv, is_old, start as nat, k as nat) == Ok::<
                    RepackState,
                    ArchiveError,
                >(
                    RepackState {
                        region: region@,
                        entries: pair_values(map_pairs(news)),
                        table: table@,
                    },
                ),
                map_pairs(news).len() == k,
                forall|i: int| 0 <= i < k ==> compression_reverses(#[trigger] self@.entries[i], fv),
                forall|i: int| 0 <= i < k ==> map_pairs(news)[i].0 == ids[i].0,
                pairs_wf(map_pairs(news)),
            decreases n - k,
        {
            proof {
                lemma_repack_fold_next(self@.entries, source@, fv, is_old, start as nat, k as nat);
                assert(self@.entries[0].offset > 0);
            }
            let e = self.entry_at(k).unwrap();
            let pos: u64 = start + region.len() as u64;
            let before = region.len();
            let ghost region_before = region@;
            let rep = find_replacement(files, e.name());
            let len_deflated: u64;
            match rep {
                Some(i) => {
                    e.repack(files[i].contents.as_slice(), &mut region);
                    len_deflated = files[i].contents.len() as u64;
                },
                None => {
                    let avail = source.len() as u64;
                    if e.offset() > avail || e.len_compressed() > avail - e.offset() {
                        proof {
                            lemma_repack_fold_error_stays(
                                self@.entries,
                                source@,
                                fv,
                                is_old,
                                start as nat,
                                (k + 1) as nat,
                                n as nat,
                            );
                        }
                        return Err(ArchiveError::TruncatedRead);
                    }
                    append_range(
                        &mut region,
                        source,
                        e.offset() as usize,
                        (e.offset() + e.len_compressed()) as usize,
                    );
                    len_deflated = e.len_deflated();
                },
            }
            let data_len = region.len() - before;
            let ghost data = region@.subrange(before as int, region@.len() as int);
            proof {
                assert(region@ =~= region_before + data);
            }
            let end: u128 = start as u128 + region.len() as u128;
            let is_last = k + 1 == n;
            let pad: u128 = if is_last {
                0
            } else if end % 2048 == 0 {
                0
            } else {
                2048 - end % 2048
            };
            if end + pad >= 0x1_0000_0000_0000_0000u128 {
                proof {
                    lemma_repack_fold_error_stays(
                        self@.entries,
                        source@,
                        fv,
                        is_old,
                        start as nat,
                        (k + 1) as nat,
                        n as nat,
                    );
                }
                return Err(ArchiveError::ValueTooLargeForFormat);
            }
            let ne = e.updated(pos, len_deflated, data_len as u64);
            match ne.write_header(&mut table, &self.version) {
                Ok(()) => {},
                Err(x) => {
                    proof {
                        lemma_repack_fold_error_stays(
                            self@.entries,
                            source@,
                            fv,
                            is_old,
                            start as nat,
                            (k + 1) as nat,
                            n as nat,
                        );
                    }
                    return Err(x);
                },
            }
            if !is_last {
                write_alignment_padding(&mut region, end as u64);
            }
            proof {
                let s = map_pairs(news);
                assert(!exists|i: int| 0 <= i < s.len() && s[i].0 == ne@.id) by {
                    if exists|i: int| 0 <= i < s.len() && s[i].0 == ne@.id {
                        let i = choose|i: int| 0 <= i < s.len() && s[i].0 == ne@.id;
                        assert(ids[i].0 == ids[k as int].0);
                    }
                }
                lemma_insert_pairs(s, ne);
                assert(!exists|i: int|
                    0 <= i < pair_values(s).len() && pair_values(s)[i].id == ne@.id) by {
                    if exists|i: int|
                        0 <= i < pair_values(s).len() && pair_values(s)[i].id == ne@.id {
                        let i = choose|i: int|
                            0 <= i < pair_values(s).len() && pair_values(s)[i].id == ne@.id;
                        assert(s[i].0 == ne@.id);
                    }
                }
            }
            map_insert(&mut news, ne.id(), ne);
            proof {
                assert(compression_reverses(self@.entries[k as int], fv));
                if !is_last {
                    assert(region@ =~= region_before + data + zeros(
                        alignment_padding(end as nat),
                    ));
                } else {
                    assert(region@ =~= region_before + data + zeros(0));
                }
            }
            k = k + 1;
        }
        let mut out: Vec<u8> = Vec::new();
        out.push(0x4Du8);
        out.push(0x50u8);
        out.push(0x4Bu8);
        out.push(0x00u8);
        proof {
            assert(out@ =~= mpk_magic());
        }
        push_le(&mut out, self.version.minor as u64, 2);
        push_le(&mut out, self.version.major as u64, 2);
        push_le(&mut out, self.reported_entry_count, self.version.count_width());
        proof {
            assert(out@ =~= preamble(self.version, self.reported_entry_count));
        }
        write_at(&mut out, start as usize, region.as_slice());
        write_at(&mut out, table_pos, table.as_slice());
        proof {
            lemma_pairs_wf_view(map_pairs(news));
            lemma_repack_alignment(self@, source@, fv);
            if first_header_offset(self@.version.is_old_format) + RECORD_LEN * self@.entries.len()
                <= data_start(self@) {
                lemma_repack_stores(self@, source@, fv);
                assert forall|k: int| 0 <= k < self@.entries.len() implies extracts_as_repacked(
                    #[trigger] repacked_archive(self@, source@, fv).unwrap().0.entries[k],
                    self@.entries[k],
                    repacked_archive(self@, source@, fv).unwrap().1,
                    source@,
                    fv,
                ) by {
                    lemma_repack_extracts(self@, source@, fv, k);
                }
            }
        }
        Ok(
            (
                MagesArchive {
                    entries: news,
                    version: self.version,
                    reported_entry_count: self.reported_entry_count,
                    overwritten: 0,
                },
                out,
            ),
        )
    }
}

/// The contents of all entries, in table order, or the first extraction error.
pub open spec fn extracted_all(entries: Seq<EntryView>, source: Seq<u8>) -> Result<
    Seq<Seq<u8>>,
    ArchiveError,
>
    decreases entries.len(),
{
    if entries.len() == 0 {
        Ok(Seq::empty())
    } else {
        match extracted_all(entries.drop_last(), source) {
            Err(e) => Err(e),
            Ok(s) => match extracted(entries.last(), source) {
                Err(e) => Err(e),
                Ok(c) => Ok(s.push(c)),
            },
        }
    }
}

impl MagesArchive {
    /// The contents of the entry with the ID `id`, read from the archive bytes `source`.
    pub fn extract_entry(&self, id: u32, source: &[u8]) -> (r: Result<Vec<u8>, ArchiveError>)
        requires
            self.wf(),
        ensures
            match entry_with_id(self@.entries, id) {
                None => r == Err::<Vec<u8>, ArchiveError>(ArchiveError::UnknownEntry(id)),
                Some(e) => match r {
                    Ok(v) => extracted(e, source@) == Ok::<Seq<u8>, ArchiveError>(v@),
                    Err(x) => extracted(e, source@) == Err::<Seq<u8>, ArchiveError>(x),
                },
            },
    {
        match self.get_entry_by_id(id) {
            Some(e) => e.extract(source),
            None => Err(ArchiveError::UnknownEntry(id)),
        }
    }

    /// The contents of every entry in table order, read from the archive bytes `source`.
    pub fn extract(&self, source: &[u8]) -> (r: Result<Vec<Vec<u8>>, ArchiveError>)
        ensures
            match r {
                Ok(v) => extracted_all(self@.entries, source@) == Ok::<
                    Seq<Seq<u8>>,
                    ArchiveError,
                >(v@.map_values(|c: Vec<u8>| c@)),
                Err(x) => extracted_all(self@.entries, source@) == Err::<
                    Seq<Seq<u8>>,
                    ArchiveError,
                >(x),
            },
    {
        let n = map_len(&self.entries);
        let mut out: Vec<Vec<u8>> = Vec::new();
        let mut i: usize = 0;
        proof {
            assert(out@.map_values(|c: Vec<u8>| c@) =~= Seq::<Seq<u8>>::empty());
        }
        while i < n
            invariant
                i <= n == self@.entries.len(),
                extracted_all(self@.entries.subrange(0, i as int), source@) == Ok::<
                    Seq<Seq<u8>>,
                    ArchiveError,
                >(out@.map_values(|c: Vec<u8>| c@)),
            decreases n - i,
        {
            let ghost prefix = self@.entries.subrange(0, i + 1);
            proof {
                assert(prefix.drop_last() =~= self@.entries.subrange(0, i as int));
            }
            let e = self.entry_at(i).unwrap();
            match e.extract(source) {
                Ok(c) => {
                    let ghost before = out@.map_values(|c: Vec<u8>| c@);
                    out.push(c);
                    proof {
                        assert(out@.map_values(|c: Vec<u8>| c@) =~= before.push(c@));
                    }
                },
                Err(x) => {
                    proof {
                        lemma_extracted_all_error_stays(self@.entries, source@, (i + 1) as nat);
                    }
                    return Err(x);
                },
            }
            i = i + 1;
        }
        proof {
            assert(self@.entries.subrange(0, n as int) =~= self@.entries);
        }
        Ok(out)
    }
}

proof fn lemma_extracted_all_error_stays(entries: Seq<EntryView>, source: Seq<u8>, k: nat)
    requires
        k <= entries.len(),
        extracted_all(entries.subrange(0, k as int), source) is Err,
    ensures
        extracted_all(entries, source) == extracted_all(entries.subrange(0, k as int), source),
    decreases entries.len() - k,
{
    if k < entries.len() {
        let next = entries.subrange(0, k as int + 1);
        assert(next.drop_last() =~= entries.subrange(0, k as int));
        lemma_extracted_all_error_stays(entries, source, k + 1);
    } else {
        assert(entries.subrange(0, k as int) =~= entries);
    }
}

} // verus!

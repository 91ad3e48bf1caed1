//! Choosing entries by numeric ID or by glob pattern on their names.

use vstd::prelude::*;
use vstd::utf8::*;

use crate::archive::MagesArchive;
use crate::bytes::{lemma_pow256_eight, pow256};
use crate::entry::{EntryView, MagesEntry};
use crate::error::ArchiveError;

verus! {

/// Whether a byte is an ASCII decimal digit.
pub open spec fn is_digit(b: u8) -> bool {
    0x30 <= b <= 0x39
}

/// The value of a string of decimal digits, most significant first.
pub open spec fn decimal_value(d: Seq<u8>) -> nat
    decreases d.len(),
{
    if d.len() == 0 {
        0
    } else {
        decimal_value(d.drop_last()) * 10 + (d.last() - 0x30) as nat
    }
}

/// The digits of an ID selector: its bytes, less one leading `+`.
pub open spec fn id_digits(s: Seq<u8>) -> Seq<u8> {
    if s.len() > 0 && s[0] == 0x2B {
        s.drop_first()
    } else {
        s
    }
}

/// The ID that a selector spells in decimal, if it spells one that fits 32 bits.
pub open spec fn parsed_id(s: Seq<char>) -> Option<u32> {
    let d = id_digits(encode_utf8(s));
    if d.len() > 0 && (forall|i: int| 0 <= i < d.len() ==> is_digit(#[trigger] d[i]))
        && decimal_value(d) < pow256(4) {
        Some(decimal_value(d) as u32)
    } else {
        None
    }
}

proof fn lemma_decimal_prefix(d: Seq<u8>, k: int)
    requires
        0 <= k <= d.len(),
        forall|i: int| 0 <= i < d.len() ==> is_digit(#[trigger] d[i]),
    ensures
        decimal_value(d.subrange(0, k)) <= decimal_value(d),
    decreases d.len() - k,
{
    if k < d.len() {
        let p = d.subrange(0, k + 1);
        assert(p.drop_last() =~= d.subrange(0, k));
        lemma_decimal_prefix(d, k + 1);
    } else {
        assert(d.subrange(0, k) =~= d);
    }
}

/// Reads a selector as an entry ID: decimal digits, after an optional `+`.
pub fn parse_entry_id(s: &str) -> (r: Option<u32>)
    ensures
        r == parsed_id(s@),
{
    let b = s.as_bytes();
    let n = b.len();
    let first: usize = if n > 0 && b[0] == 0x2B {
        1
    } else {
        0
    };
    let ghost d = id_digits(b@);
    proof {
        assert(b@ == encode_utf8(s@));
        if first == 1 {
            assert(d =~= b@.subrange(1, n as int));
        } else {
            assert(d =~= b@.subrange(0, n as int));
        }
    }
    if first == n {
        return None;
    }
    let mut i: usize = first;
    while i < n
        invariant
            first <= i <= n == b@.len(),
            d == b@.subrange(first as int, n as int),
            d == id_digits(encode_utf8(s@)),
            forall|j: int| 0 <= j < i - first ==> is_digit(#[trigger] d[j]),
        decreases n - i,
    {
        if b[i] < 0x30 || b[i] > 0x39 {
            proof {
                assert(!is_digit(d[i - first]));
                assert(!(forall|j: int| 0 <= j < d.len() ==> is_digit(#[trigger] d[j])));
            }
            return None;
        }
        i = i + 1;
    }
    let mut v: u64 = 0;
    let mut k: usize = first;
    proof {
        assert(d.subrange(0, 0) =~= Seq::<u8>::empty());
        lemma_pow256_eight();
    }
    while k < n
        invariant
            first <= k <= n == b@.len(),
            d == b@.subrange(first as int, n as int),
            d == id_digits(encode_utf8(s@)),
            forall|j: int| 0 <= j < d.len() ==> is_digit(#[trigger] d[j]),
            v == decimal_value(d.subrange(0, k - first)),
            v < pow256(4),
            pow256(4) == 0x1_0000_0000,
        decreases n - k,
    {
        let ghost p = d.subrange(0, k - first + 1);
        proof {
            assert(p.drop_last() =~= d.subrange(0, k - first));
            assert(p.last() == b@[k as int]);
        }
        v = v * 10 + (b[k] - 0x30) as u64;
        if v >= 0x1_0000_0000 {
            proof {
                lemma_decimal_prefix(d, k - first + 1);
                assert(decimal_value(d) >= pow256(4));
            }
            return None;
        }
        k = k + 1;
    }
    proof {
        assert(d.subrange(0, n - first) =~= d);
    }
    Some(v as u32)
}

/// Whether a pattern is a glob whose matcher can be built: it parses, and the
/// matcher compiled from it stays within the matcher's size limit.
pub uninterp spec fn glob_valid(pattern: Seq<char>) -> bool;

/// Whether a usable glob pattern matches a name.
pub uninterp spec fn glob_match(pattern: Seq<char>, name: Seq<char>) -> bool;

/// Relies on `globset::Glob::new` and `globset::GlobSetBuilder::build`: the
/// first reports a syntax error, the second a matcher that would grow too
/// large, both as `Err`.
#[verifier::external_body]
fn glob_is_valid(pattern: &str) -> (r: bool)
    ensures
        r == glob_valid(pattern@),
{
    match globset::Glob::new(pattern) {
        Ok(glob) => globset::GlobSetBuilder::new().add(glob).build().is_ok(),
        Err(_) => false,
    }
}

/// Relies on `globset::GlobSet::is_match`, for the set that
/// `globset::GlobSetBuilder::build` makes of the one pattern, which builds
/// for a usable pattern.
#[verifier::external_body]
fn glob_is_match(pattern: &str, name: &str) -> (r: bool)
    requires
        glob_valid(pattern@),
    ensures
        r == glob_match(pattern@, name@),
{
    match globset::Glob::new(pattern) {
        Ok(glob) => match globset::GlobSetBuilder::new().add(glob).build() {
            Ok(set) => set.is_match(name),
            Err(_) => false,
        },
        Err(_) => false,
    }
}

/// Whether a selector picks an entry: by ID where it spells one, else by
/// matching the entry's name as a glob.
pub open spec fn selector_matches(sel: Seq<char>, e: EntryView) -> bool {
    match parsed_id(sel) {
        Some(id) => e.id == id,
        None => glob_match(sel, e.name),
    }
}

/// Whether some selector picks an entry.
pub open spec fn is_selected(sels: Seq<Seq<char>>, e: EntryView) -> bool {
    exists|j: int| 0 <= j < sels.len() && selector_matches(sels[j], e)
}

/// The IDs of the picked entries, in table order.
pub open spec fn selected_ids(entries: Seq<EntryView>, sels: Seq<Seq<char>>) -> Seq<u32>
    decreases entries.len(),
{
    if entries.len() == 0 {
        Seq::empty()
    } else {
        let prev = selected_ids(entries.drop_last(), sels);
        if is_selected(sels, entries.last()) {
            prev.push(entries.last().id)
        } else {
            prev
        }
    }
}

/// The first selector that is neither an ID nor a usable glob.
pub open spec fn first_invalid_pattern(sels: Seq<Seq<char>>) -> Option<Seq<char>>
    decreases sels.len(),
{
    if sels.len() == 0 {
        None
    } else if parsed_id(sels[0]) is None && !glob_valid(sels[0]) {
        Some(sels[0])
    } else {
        first_invalid_pattern(sels.drop_first())
    }
}

/// The selectors as text.
pub open spec fn selectors_view(sels: Seq<String>) -> Seq<Seq<char>> {
    sels.map_values(|s: String| s@)
}

fn selected_by(sels: &Vec<String>, ids: &Vec<Option<u32>>, e: &MagesEntry) -> (r: bool)
    requires
        ids@.len() == sels@.len(),
        forall|j: int| 0 <= j < sels@.len() ==> ids@[j] == parsed_id(#[trigger] sels@[j]@),
        forall|j: int|
            0 <= j < sels@.len() && parsed_id(sels@[j]@) is None ==> glob_valid(
                #[trigger] sels@[j]@,
            ),
    ensures
        r == is_selected(selectors_view(sels@), e@),
{
    let ghost sv = selectors_view(sels@);
    let n = sels.len();
    let mut j: usize = 0;
    while j < n
        invariant
            j <= n == sels@.len() == ids@.len(),
            sv == selectors_view(sels@),
            forall|i: int| 0 <= i < j ==> !selector_matches(sv[i], e@),
            forall|i: int| 0 <= i < sels@.len() ==> ids@[i] == parsed_id(#[trigger] sels@[i]@),
            forall|i: int|
                0 <= i < sels@.len() && parsed_id(sels@[i]@) is None ==> glob_valid(
                    #[trigger] sels@[i]@,
                ),
        decreases n - j,
    {
        let hit = match ids[j] {
            Some(id) => e.id() == id,
            None => glob_is_match(sels[j].as_str(), e.name()),
        };
        if hit {
            proof {
                assert(selector_matches(sv[j as int], e@));
            }
            return true;
        }
        j = j + 1;
    }
    false
}

impl MagesArchive {
    /// The IDs, in table order, of the entries that some selector picks: a
    /// selector that spells a decimal ID picks that entry, any other is a glob
    /// matched against entry names. A selector that is neither an ID nor a
    /// usable glob is reported.
    pub fn select_entries(&self, selectors: &Vec<String>) -> (r: Result<Vec<u32>, ArchiveError>)
        ensures
            match first_invalid_pattern(selectors_view(selectors@)) {
                Some(p) => r matches Err(ArchiveError::InvalidPattern(s)) && s@ == p,
                None => r matches Ok(ids) && ids@ == selected_ids(
                    self@.entries,
                    selectors_view(selectors@),
                ),
            },
    {
        let ghost sv = selectors_view(selectors@);
        let n = selectors.len();
        let mut ids: Vec<Option<u32>> = Vec::new();
        let mut j: usize = 0;
        proof {
            assert(sv.subrange(0, n as int) =~= sv);
        }
        while j < n
            invariant
                j <= n == selectors@.len(),
                sv == selectors_view(selectors@),
                ids@.len() == j,
                first_invalid_pattern(sv) == first_invalid_pattern(sv.subrange(j as int, n as int)),
                forall|i: int| 0 <= i < j ==> ids@[i] == parsed_id(#[trigger] selectors@[i]@),
                forall|i: int|
                    0 <= i < j && parsed_id(selectors@[i]@) is None ==> glob_valid(
                        #[trigger] selectors@[i]@,
                    ),
            decreases n - j,
        {
            let ghost rest = sv.subrange(j as int, n as int);
            proof {
                assert(rest.drop_first() =~= sv.subrange(j + 1, n as int));
            }
            let id = parse_entry_id(selectors[j].as_str());
            if id.is_none() && !glob_is_valid(selectors[j].as_str()) {
                return Err(ArchiveError::InvalidPattern(selectors[j].clone()));
            }
            ids.push(id);
            j = j + 1;
        }
        proof {
            assert(sv.subrange(n as int, n as int) =~= Seq::<Seq<char>>::empty());
        }
        let count = self.len();
        let mut out: Vec<u32> = Vec::new();
        let mut k: usize = 0;
        proof {
            assert(self@.entries.subrange(0, 0) =~= Seq::<EntryView>::empty());
        }
        while k < count
            invariant
                k <= count == self@.entries.len(),
                ids@.len() == selectors@.len(),
                sv == selectors_view(selectors@),
                forall|i: int|
                    0 <= i < selectors@.len() ==> ids@[i] == parsed_id(#[trigger] selectors@[i]@),
                forall|i: int|
                    0 <= i < selectors@.len() && parsed_id(selectors@[i]@) is None ==> glob_valid(
                        #[trigger] selectors@[i]@,
                    ),
                out@ == selected_ids(self@.entries.subrange(0, k as int), sv),
            decreases count - k,
        {
            let ghost prefix = self@.entries.subrange(0, k + 1);
            proof {
                assert(prefix.drop_last() =~= self@.entries.subrange(0, k as int));
            }
            let e = self.entry_at(k).unwrap();
            if selected_by(selectors, &ids, e) {
                out.push(e.id());
            }
            k = k + 1;
        }
        proof {
            assert(self@.entries.subrange(0, count as int) =~= self@.entries);
        }
        Ok(out)
    }
}

} // verus!

//! Fixed-width little-endian integers and zero padding.

use vstd::arithmetic::div_mod::*;
use vstd::arithmetic::mul::*;
use vstd::prelude::*;
use vstd::utf8::*;

use crate::error::ArchiveError;

verus! {

/// `256` raised to `n`: the number of values that `n` bytes can hold.
pub open spec fn pow256(n: nat) -> nat
    decreases n,
{
    if n == 0 {
        1
    } else {
        256 * pow256((n - 1) as nat)
    }
}

/// The value of a little-endian byte string.
pub open spec fn le_value(b: Seq<u8>) -> nat
    decreases b.len(),
{
    if b.len() == 0 {
        0
    } else {
        b[0] as nat + 256 * le_value(b.subrange(1, b.len() as int))
    }
}

/// The `width` low bytes of `v`, least significant first.
pub open spec fn le_bytes(v: nat, width: nat) -> Seq<u8>
    decreases width,
{
    if width == 0 {
        Seq::empty()
    } else {
        seq![(v % 256) as u8] + le_bytes(v / 256, (width - 1) as nat)
    }
}

/// `n` zero bytes.
pub open spec fn zeros(n: nat) -> Seq<u8> {
    Seq::new(n, |_i: int| 0u8)
}

pub proof fn lemma_pow256_positive(n: nat)
    ensures
        pow256(n) >= 1,
    decreases n,
{
    if n > 0 {
        lemma_pow256_positive((n - 1) as nat);
    }
}

pub proof fn lemma_pow256_eight()
    ensures
        pow256(8) == 0x1_0000_0000_0000_0000,
        pow256(4) == 0x1_0000_0000,
        pow256(2) == 0x1_0000,
{
    reveal_with_fuel(pow256, 9);
}

pub proof fn lemma_pow256_monotone(a: nat, b: nat)
    requires
        a <= b,
    ensures
        pow256(a) <= pow256(b),
    decreases b,
{
    if a < b {
        lemma_pow256_monotone(a, (b - 1) as nat);
        lemma_pow256_positive((b - 1) as nat);
    }
}

pub proof fn lemma_le_bytes_len(v: nat, width: nat)
    ensures
        le_bytes(v, width).len() == width,
    decreases width,
{
    if width > 0 {
        lemma_le_bytes_len(v / 256, (width - 1) as nat);
    }
}

pub proof fn lemma_le_value_bound(b: Seq<u8>)
    ensures
        le_value(b) < pow256(b.len()),
    decreases b.len(),
{
    if b.len() > 0 {
        let rest = b.subrange(1, b.len() as int);
        lemma_le_value_bound(rest);
        assert(pow256(b.len()) == 256 * pow256(rest.len()));
        assert(b[0] as nat + 256 * le_value(rest) < 256 * pow256(rest.len())) by (nonlinear_arith)
            requires
                b[0] < 256,
                le_value(rest) < pow256(rest.len()),
        ;
    }
}

/// Decoding the encoding of a value that fits gives the value back.
pub proof fn lemma_le_round_trip(v: nat, width: nat)
    requires
        v < pow256(width),
    ensures
        le_value(le_bytes(v, width)) == v,
    decreases width,
{
    lemma_le_bytes_len(v, width);
    if width > 0 {
        let b = le_bytes(v, width);
        let rest = le_bytes(v / 256, (width - 1) as nat);
        assert(b.subrange(1, b.len() as int) =~= rest);
        lemma_div_pos_is_pos(v as int, 256);
        assert(v / 256 < pow256((width - 1) as nat)) by {
            lemma_fundamental_div_mod(v as int, 256);
            lemma_mod_bound(v as int, 256);
            assert(v / 256 < pow256((width - 1) as nat)) by (nonlinear_arith)
                requires
                    v == 256 * (v / 256) + v % 256,
                    v % 256 >= 0,
                    v < 256 * pow256((width - 1) as nat),
            ;
        }
        lemma_le_round_trip(v / 256, (width - 1) as nat);
        lemma_fundamental_div_mod(v as int, 256);
        lemma_mod_bound(v as int, 256);
    } else {
        assert(v == 0) by {
            reveal_with_fuel(pow256, 1);
        }
    }
}

/// Reads the `width`-byte little-endian integer that starts at `pos`.
pub fn read_le(b: &[u8], pos: usize, width: usize) -> (r: u64)
    requires
        width <= 8,
        pos + width <= b@.len(),
    ensures
        r as nat == le_value(b@.subrange(pos as int, pos + width)),
{
    let len = b.len();
    let mut v: u64 = 0;
    let mut i: usize = width;
    proof {
        assert(b@.subrange(pos + width, pos + width) =~= Seq::<u8>::empty());
        reveal_with_fuel(pow256, 1);
    }
    while i > 0
        invariant
            i <= width <= 8,
            pos + width <= b@.len() == len,
            v as nat == le_value(b@.subrange(pos + i, pos + width)),
            v < pow256((width - i) as nat),
        decreases i,
    {
        i = i - 1;
        let ghost tail = b@.subrange(pos + i + 1, pos + width);
        let ghost whole = b@.subrange(pos + i, pos + width);
        proof {
            assert(whole.subrange(1, whole.len() as int) =~= tail);
            assert(le_value(whole) == whole[0] as nat + 256 * le_value(tail));
            lemma_pow256_monotone((width - i) as nat, 8);
            lemma_pow256_eight();
            assert(pow256((width - i) as nat) == 256 * pow256((width - i - 1) as nat));
            assert(v * 256 + b@[pos + i] < pow256((width - i) as nat)) by (nonlinear_arith)
                requires
                    v < pow256((width - i - 1) as nat),
                    b@[pos + i] < 256,
                    pow256((width - i) as nat) == 256 * pow256((width - i - 1) as nat),
            ;
        }
        v = v * 256 + b[pos + i] as u64;
    }
    v
}

/// Appends the `width` low bytes of `v`, least significant first.
pub fn push_le(out: &mut Vec<u8>, v: u64, width: usize)
    ensures
        final(out)@ == old(out)@ + le_bytes(v as nat, width as nat),
{
    let mut x: u64 = v;
    let mut i: usize = 0;
    while i < width
        invariant
            i <= width,
            old(out)@ + le_bytes(v as nat, width as nat) == out@ + le_bytes(
                x as nat,
                (width - i) as nat,
            ),
        decreases width - i,
    {
        let ghost before = out@;
        out.push((x % 256) as u8);
        proof {
            let rest = le_bytes((x / 256) as nat, (width - i - 1) as nat);
            assert(le_bytes(x as nat, (width - i) as nat) == seq![(x % 256) as u8] + rest);
            assert(before + (seq![(x % 256) as u8] + rest) =~= out@ + rest);
        }
        x = x / 256;
        i = i + 1;
    }
    proof {
        assert(out@ + le_bytes(x as nat, 0) =~= out@);
    }
}

/// Appends `n` zero bytes.
pub fn push_zeros(out: &mut Vec<u8>, n: usize)
    ensures
        final(out)@ == old(out)@ + zeros(n as nat),
{
    let mut i: usize = 0;
    while i < n
        invariant
            i <= n,
            out@ == old(out)@ + zeros(i as nat),
        decreases n - i,
    {
        out.push(0u8);
        i = i + 1;
        proof {
            assert(out@ =~= old(out)@ + zeros(i as nat));
        }
    }
}

} // verus!

verus! {

/// The size of an entry's name field.
pub const NAME_FIELD_LEN: usize = 224;

/// The bytes of `s` before its first NUL (all of `s` where it holds none).
pub open spec fn until_nul(s: Seq<u8>) -> Seq<u8>
    decreases s.len(),
{
    if s.len() == 0 {
        s
    } else if s[0] == 0 {
        Seq::empty()
    } else {
        seq![s[0]] + until_nul(s.subrange(1, s.len() as int))
    }
}

/// The name that a name field holds: the UTF-8 text before its first NUL,
/// or nothing where there is no NUL or the text is not UTF-8.
pub open spec fn decoded_name(field: Seq<u8>) -> Option<Seq<char>> {
    if field.contains(0u8) && valid_utf8(until_nul(field)) {
        Some(decode_utf8(until_nul(field)))
    } else {
        None
    }
}

/// The name field that holds `name`: its UTF-8 bytes, then zeros up to the field's size.
pub open spec fn name_field(name: Seq<char>) -> Seq<u8> {
    encode_utf8(name) + zeros((NAME_FIELD_LEN - encode_utf8(name).len()) as nat)
}

proof fn lemma_until_nul_at(s: Seq<u8>, i: int)
    requires
        0 <= i < s.len(),
        s[i] == 0,
        forall|j: int| 0 <= j < i ==> s[j] != 0,
    ensures
        until_nul(s) == s.subrange(0, i),
    decreases i,
{
    if i == 0 {
        assert(s.subrange(0, 0) =~= Seq::<u8>::empty());
    } else {
        let rest = s.subrange(1, s.len() as int);
        lemma_until_nul_at(rest, i - 1);
        assert(seq![s[0]] + rest.subrange(0, i - 1) =~= s.subrange(0, i));
    }
}

/// Relies on `String::from_utf8`, which accepts exactly the valid UTF-8 byte strings.
#[verifier::external_body]
fn utf8_string(bytes: Vec<u8>) -> (r: Option<String>)
    ensures
        r is Some <==> valid_utf8(bytes@),
        r matches Some(s) ==> s@ == decode_utf8(bytes@),
{
    String::from_utf8(bytes).ok()
}

/// Decodes a name field: the UTF-8 text before its first NUL.
pub fn entry_name_from_bytes(name: &[u8]) -> (r: Result<String, ArchiveError>)
    ensures
        match r {
            Ok(s) => decoded_name(name@) == Some(s@),
            Err(e) => decoded_name(name@) is None && e == ArchiveError::MalformedName,
        },
{
    let len = name.len();
    let mut i: usize = 0;
    while i < len && name[i] != 0
        invariant
            i <= len == name@.len(),
            forall|j: int| 0 <= j < i ==> name@[j] != 0,
        decreases len - i,
    {
        i = i + 1;
    }
    if i == len {
        proof {
            assert(!name@.contains(0u8));
        }
        return Err(ArchiveError::MalformedName);
    }
    proof {
        lemma_until_nul_at(name@, i as int);
    }
    let mut text: Vec<u8> = Vec::new();
    let mut k: usize = 0;
    while k < i
        invariant
            k <= i < len == name@.len(),
            text@ == name@.subrange(0, k as int),
        decreases i - k,
    {
        text.push(name[k]);
        k = k + 1;
        proof {
            assert(text@ =~= name@.subrange(0, k as int));
        }
    }
    match utf8_string(text) {
        Some(s) => Ok(s),
        None => Err(ArchiveError::MalformedName),
    }
}

/// Builds the name field that holds `name`, zero-padded to its size.
pub fn copy_name_bytes(name: &str) -> (r: Result<Vec<u8>, ArchiveError>)
    ensures
        match r {
            Ok(field) => encode_utf8(name@).len() <= NAME_FIELD_LEN && field@ == name_field(name@),
            Err(e) => encode_utf8(name@).len() > NAME_FIELD_LEN && e == ArchiveError::NameTooLong,
        },
{
    let bytes = name.as_bytes();
    let n = bytes.len();
    if n > NAME_FIELD_LEN {
        return Err(ArchiveError::NameTooLong);
    }
    let mut field: Vec<u8> = Vec::new();
    let mut k: usize = 0;
    while k < n
        invariant
            k <= n == bytes@.len(),
            bytes@ == encode_utf8(name@),
            field@ == bytes@.subrange(0, k as int),
        decreases n - k,
    {
        field.push(bytes[k]);
        k = k + 1;
        proof {
            assert(field@ =~= bytes@.subrange(0, k as int));
        }
    }
    proof {
        assert(bytes@.subrange(0, n as int) =~= bytes@);
    }
    push_zeros(&mut field, NAME_FIELD_LEN - n);
    Ok(field)
}

} // verus!

verus! {

/// Entry data starts on multiples of this many bytes.
pub const ALIGNMENT: u64 = 2048;

/// The zero bytes that take position `pos` to the next multiple of the alignment.
pub open spec fn alignment_padding(pos: nat) -> nat {
    if pos % (ALIGNMENT as nat) == 0 {
        0
    } else {
        (ALIGNMENT - pos % (ALIGNMENT as nat)) as nat
    }
}

/// Appends the zero bytes that take position `pos` to the next multiple of the alignment.
pub fn write_alignment_padding(writer: &mut Vec<u8>, pos: u64)
    ensures
        final(writer)@ == old(writer)@ + zeros(alignment_padding(pos as nat)),
{
    let remainder = pos % ALIGNMENT;
    if remainder == 0 {
        proof {
            assert(old(writer)@ + zeros(0) =~= old(writer)@);
        }
        return;
    }
    push_zeros(writer, (ALIGNMENT - remainder) as usize);
}

/// A copy of the bytes of `src` in `[start, end)`.
pub fn copy_range(src: &[u8], start: usize, end: usize) -> (r: Vec<u8>)
    requires
        start <= end <= src@.len(),
    ensures
        r@ == src@.subrange(start as int, end as int),
{
    let mut out: Vec<u8> = Vec::new();
    let mut k: usize = start;
    while k < end
        invariant
            start <= k <= end <= src@.len(),
            out@ == src@.subrange(start as int, k as int),
        decreases end - k,
    {
        out.push(src[k]);
        k = k + 1;
        proof {
            assert(out@ =~= src@.subrange(start as int, k as int));
        }
    }
    out
}

/// Appends the bytes of `src` in `[start, end)`.
pub fn append_range(out: &mut Vec<u8>, src: &[u8], start: usize, end: usize)
    requires
        start <= end <= src@.len(),
    ensures
        final(out)@ == old(out)@ + src@.subrange(start as int, end as int),
{
    let mut k: usize = start;
    while k < end
        invariant
            start <= k <= end <= src@.len(),
            out@ == old(out)@ + src@.subrange(start as int, k as int),
        decreases end - k,
    {
        out.push(src[k]);
        k = k + 1;
        proof {
            assert(out@ =~= old(out)@ + src@.subrange(start as int, k as int));
        }
    }
}

} // verus!

verus! {

/// `buf` after writing `bytes` at position `pos`: a gap before `pos` is filled
/// with zeros, and the result is as long as the longer of the two reaches.
pub open spec fn place(buf: Seq<u8>, pos: nat, bytes: Seq<u8>) -> Seq<u8> {
    let len = if buf.len() > pos + bytes.len() {
        buf.len()
    } else {
        pos + bytes.len()
    };
    Seq::new(
        len as nat,
        |i: int|
            if pos <= i < pos + bytes.len() {
                bytes[i - pos]
            } else if i < buf.len() {
                buf[i]
            } else {
                0u8
            },
    )
}

/// Writes `bytes` at position `pos` of `out`, as a seek and a write would.
pub fn write_at(out: &mut Vec<u8>, pos: usize, bytes: &[u8])
    ensures
        final(out)@ == place(old(out)@, pos as nat, bytes@),
{
    while out.len() < pos
        invariant
            out@.len() <= pos || out@ == old(out)@,
            old(out)@.len() <= out@.len(),
            forall|i: int| 0 <= i < old(out)@.len() ==> out@[i] == old(out)@[i],
            forall|i: int| old(out)@.len() <= i < out@.len() ==> out@[i] == 0u8,
        decreases pos - out@.len(),
    {
        out.push(0u8);
    }
    let n = bytes.len();
    let mut k: usize = 0;
    while k < n
        invariant
            k <= n == bytes@.len(),
            pos <= out@.len(),
            out@ == place(old(out)@, pos as nat, bytes@.subrange(0, k as int)),
        decreases n - k,
    {
        if k < out.len() - pos {
            out.set(pos + k, bytes[k]);
        } else {
            out.push(bytes[k]);
        }
        k = k + 1;
        proof {
            assert(out@ =~= place(old(out)@, pos as nat, bytes@.subrange(0, k as int)));
        }
    }
    proof {
        assert(bytes@.subrange(0, n as int) =~= bytes@);
    }
}

} // verus!

verus! {

proof fn lemma_until_nul_shape(s: Seq<u8>)
    ensures
        forall|i: int| 0 <= i < until_nul(s).len() ==> until_nul(s)[i] != 0,
        until_nul(s).len() <= s.len(),
        s.contains(0u8) ==> until_nul(s).len() < s.len(),
    decreases s.len(),
{
    if s.len() > 0 && s[0] != 0 {
        let rest = s.subrange(1, s.len() as int);
        lemma_until_nul_shape(rest);
        if s.contains(0u8) {
            let k = choose|k: int| 0 <= k < s.len() && s[k] == 0u8;
            assert(rest[k - 1] == 0u8);
        }
        assert forall|i: int| 0 <= i < until_nul(s).len() implies until_nul(s)[i] != 0 by {
            if i > 0 {
                assert(until_nul(s)[i] == until_nul(rest)[i - 1]);
            }
        }
    }
}

/// A name that a name field can hold and give back: shorter than the field,
/// and free of NUL.
pub open spec fn name_fits(name: Seq<char>) -> bool {
    &&& encode_utf8(name).len() < NAME_FIELD_LEN
    &&& forall|i: int| 0 <= i < encode_utf8(name).len() ==> encode_utf8(name)[i] != 0
}

/// Every name decoded from a field fits a field.
pub proof fn lemma_decoded_name_fits(field: Seq<u8>)
    requires
        decoded_name(field) is Some,
        field.len() == NAME_FIELD_LEN,
    ensures
        name_fits(decoded_name(field).unwrap()),
{
    lemma_until_nul_shape(field);
    decode_utf8_encode_utf8(until_nul(field));
}

/// A name that fits is what decoding its field gives back.
pub proof fn lemma_name_round_trip(name: Seq<char>)
    requires
        name_fits(name),
    ensures
        name_field(name).len() == NAME_FIELD_LEN,
        decoded_name(name_field(name)) == Some(name),
{
    let p = encode_utf8(name);
    let field = name_field(name);
    assert(field[p.len() as int] == 0u8);
    assert forall|j: int| 0 <= j < p.len() implies field[j] != 0 by {
        assert(field[j] == p[j]);
    }
    lemma_until_nul_at(field, p.len() as int);
    assert(field.subrange(0, p.len() as int) =~= p);
    encode_utf8_valid_utf8(name);
    encode_utf8_decode_utf8(name);
}

} // verus!

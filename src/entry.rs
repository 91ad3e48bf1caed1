//! One file packed in an archive: its table record and its content codec.

use vstd::prelude::*;
use vstd::utf8::*;

use crate::bytes::{
    append_range, copy_name_bytes, copy_range, decoded_name, entry_name_from_bytes, le_bytes,
    le_value, lemma_decoded_name_fits, lemma_le_bytes_len, lemma_le_round_trip,
    lemma_le_value_bound, lemma_name_round_trip, lemma_pow256_eight, name_field, name_fits, pow256,
    push_le, push_zeros, read_le, zeros, NAME_FIELD_LEN,
};
use crate::error::ArchiveError;

verus! {

/// The size of one record of the entry table.
pub const RECORD_LEN: usize = 256;

/// The version fields of an archive header, and the layout that they select.
#[derive(Debug, Clone, Copy, PartialEq, Eq)]
pub struct MpkVersion {
    pub major: u16,
    pub minor: u16,
    /// Version 1: narrow fields and no compression indicator.
    pub is_old_format: bool,
}

/// Where the entry table starts for the given layout.
pub open spec fn first_header_offset(is_old_format: bool) -> nat {
    if is_old_format {
        0x40
    } else {
        0x44
    }
}

/// The width in bytes of the header's entry count for the given layout.
pub open spec fn count_width(is_old_format: bool) -> nat {
    if is_old_format {
        4
    } else {
        8
    }
}

impl MpkVersion {
    /// A version that this library reads and writes.
    pub open spec fn valid(&self) -> bool {
        &&& (self.major == 1 || self.major == 2)
        &&& self.is_old_format == (self.major == 1)
    }

    /// Accepts major versions 1 and 2.
    pub fn build(major: u16, minor: u16) -> (r: Result<MpkVersion, ArchiveError>)
        ensures
            match r {
                Ok(v) => (major == 1 || major == 2) && v == (MpkVersion {
                    major,
                    minor,
                    is_old_format: major == 1,
                }),
                Err(e) => major != 1 && major != 2 && e == ArchiveError::UnsupportedVersion(major),
            },
    {
        if major != 1 && major != 2 {
            Err(ArchiveError::UnsupportedVersion(major))
        } else {
            Ok(MpkVersion { major, minor, is_old_format: major == 1 })
        }
    }

    /// Where the entry table starts.
    pub fn first_header_offset(&self) -> (r: usize)
        ensures
            r == first_header_offset(self.is_old_format),
    {
        if self.is_old_format {
            0x40
        } else {
            0x44
        }
    }

    /// The width in bytes of the header's entry count.
    pub fn count_width(&self) -> (r: usize)
        ensures
            r == count_width(self.is_old_format),
    {
        if self.is_old_format {
            4
        } else {
            8
        }
    }
}

/// What an entry holds, as plain values.
pub struct EntryView {
    pub id: u32,
    pub name: Seq<char>,
    pub offset: u64,
    pub len_deflated: u64,
    pub len_compressed: u64,
    pub cpr_indicator: u32,
    pub compressed: bool,
}

/// One file packed in an archive.
#[derive(Debug)]
pub struct MagesEntry {
    id: u32,
    name: String,
    offset: u64,
    len_deflated: u64,
    len_compressed: u64,
    cpr_indicator: u32,
    compressed: bool,
}

impl View for MagesEntry {
    type V = EntryView;

    closed spec fn view(&self) -> EntryView {
        EntryView {
            id: self.id,
            name: self.name@,
            offset: self.offset,
            len_deflated: self.len_deflated,
            len_compressed: self.len_compressed,
            cpr_indicator: self.cpr_indicator,
            compressed: self.compressed,
        }
    }
}

/// The entry that a 256-byte table record describes, or nothing where its name is malformed.
pub open spec fn decode_record(is_old_format: bool, r: Seq<u8>) -> Option<EntryView> {
    let name = decoded_name(r.subrange(32, 256));
    if name is None {
        None
    } else if is_old_format {
        let len_compressed = le_value(r.subrange(8, 12)) as u64;
        let len_deflated = le_value(r.subrange(12, 16)) as u64;
        Some(
            EntryView {
                id: le_value(r.subrange(0, 4)) as u32,
                name: name.unwrap(),
                offset: le_value(r.subrange(4, 8)) as u64,
                len_deflated,
                len_compressed,
                cpr_indicator: 0,
                compressed: len_compressed != len_deflated,
            },
        )
    } else {
        let cpr_indicator = le_value(r.subrange(0, 4)) as u32;
        Some(
            EntryView {
                id: le_value(r.subrange(4, 8)) as u32,
                name: name.unwrap(),
                offset: le_value(r.subrange(8, 16)) as u64,
                len_deflated: le_value(r.subrange(24, 32)) as u64,
                len_compressed: le_value(r.subrange(16, 24)) as u64,
                cpr_indicator,
                compressed: cpr_indicator != 0,
            },
        )
    }
}

/// Whether a version-1 record can hold the entry's offset and sizes.
pub open spec fn fits_narrow(e: EntryView) -> bool {
    &&& e.offset < pow256(4)
    &&& e.len_compressed < pow256(4)
    &&& e.len_deflated < pow256(4)
}

/// The 256-byte table record of an entry.
pub open spec fn encode_record(is_old_format: bool, e: EntryView) -> Seq<u8> {
    if is_old_format {
        le_bytes(e.id as nat, 4) + le_bytes(e.offset as nat, 4) + le_bytes(
            e.len_compressed as nat,
            4,
        ) + le_bytes(e.len_deflated as nat, 4) + zeros(16) + name_field(e.name)
    } else {
        le_bytes(e.cpr_indicator as nat, 4) + le_bytes(e.id as nat, 4) + le_bytes(
            e.offset as nat,
            8,
        ) + le_bytes(e.len_compressed as nat, 8) + le_bytes(e.len_deflated as nat, 8)
            + name_field(e.name)
    }
}

/// What writing an entry's record does: the error it meets, or the record.
pub open spec fn record_result(is_old_format: bool, e: EntryView) -> Result<Seq<u8>, ArchiveError> {
    if is_old_format && !fits_narrow(e) {
        Err(ArchiveError::ValueTooLargeForFormat)
    } else if encode_utf8(e.name).len() > NAME_FIELD_LEN {
        Err(ArchiveError::NameTooLong)
    } else {
        Ok(encode_record(is_old_format, e))
    }
}

impl MagesEntry {
    pub fn id(&self) -> (r: u32)
        ensures
            r == self@.id,
    {
        self.id
    }

    pub fn name(&self) -> (r: &str)
        ensures
            r@ == self@.name,
    {
        self.name.as_str()
    }

    pub fn offset(&self) -> (r: u64)
        ensures
            r == self@.offset,
    {
        self.offset
    }

    /// The size of the entry's content.
    pub fn len_deflated(&self) -> (r: u64)
        ensures
            r == self@.len_deflated,
    {
        self.len_deflated
    }

    /// The size that the entry's data takes in the archive.
    pub fn len_compressed(&self) -> (r: u64)
        ensures
            r == self@.len_compressed,
    {
        self.len_compressed
    }

    pub fn is_compressed(&self) -> (r: bool)
        ensures
            r == self@.compressed,
    {
        self.compressed
    }

    /// Decodes the table record that starts at `pos`.
    pub fn read(table: &[u8], pos: usize, version: &MpkVersion) -> (r: Result<
        MagesEntry,
        ArchiveError,
    >)
        requires
            pos + RECORD_LEN <= table@.len(),
        ensures
            match r {
                Ok(e) => decode_record(
                    version.is_old_format,
                    table@.subrange(pos as int, pos + RECORD_LEN),
                ) == Some(e@),
                Err(err) => decode_record(
                    version.is_old_format,
                    table@.subrange(pos as int, pos + RECORD_LEN),
                ) is None && err == ArchiveError::MalformedName,
            },
    {
        let _len = table.len();
        let ghost rec = table@.subrange(pos as int, pos + RECORD_LEN);
        let field = copy_range(table, pos + 32, pos + RECORD_LEN);
        proof {
            assert(field@ =~= rec.subrange(32, 256));
        }
        let name = match entry_name_from_bytes(field.as_slice()) {
            Ok(n) => n,
            Err(e) => return Err(e),
        };
        proof {
            assert(rec.subrange(0, 4) =~= table@.subrange(pos as int, pos + 4));
            assert(rec.subrange(4, 8) =~= table@.subrange(pos + 4, pos + 8));
            assert(rec.subrange(8, 12) =~= table@.subrange(pos + 8, pos + 12));
            assert(rec.subrange(12, 16) =~= table@.subrange(pos + 12, pos + 16));
            assert(rec.subrange(8, 16) =~= table@.subrange(pos + 8, pos + 16));
            assert(rec.subrange(16, 24) =~= table@.subrange(pos + 16, pos + 24));
            assert(rec.subrange(24, 32) =~= table@.subrange(pos + 24, pos + 32));
        }
        if version.is_old_format {
            let id = read_le(table, pos, 4);
            let offset = read_le(table, pos + 4, 4);
            let len_compressed = read_le(table, pos + 8, 4);
            let len_deflated = read_le(table, pos + 12, 4);
            proof {
                lemma_le_value_bound(table@.subrange(pos as int, pos + 4));
                lemma_pow256_eight();
            }
            Ok(MagesEntry {
                id: id as u32,
                name,
                offset,
                len_deflated,
                len_compressed,
                cpr_indicator: 0,
                compressed: len_compressed != len_deflated,
            })
        } else {
            let cpr_indicator = read_le(table, pos, 4);
            let id = read_le(table, pos + 4, 4);
            let offset = read_le(table, pos + 8, 8);
            let len_compressed = read_le(table, pos + 16, 8);
            let len_deflated = read_le(table, pos + 24, 8);
            proof {
                lemma_le_value_bound(table@.subrange(pos as int, pos + 4));
                lemma_le_value_bound(table@.subrange(pos + 4, pos + 8));
                lemma_pow256_eight();
            }
            Ok(MagesEntry {
                id: id as u32,
                name,
                offset,
                len_deflated,
                len_compressed,
                cpr_indicator: cpr_indicator as u32,
                compressed: cpr_indicator != 0,
            })
        }
    }

    /// The same entry stored at `offset`, with the given sizes.
    pub fn updated(&self, offset: u64, len_deflated: u64, len_compressed: u64) -> (r: MagesEntry)
        ensures
            r@ == (EntryView { offset, len_deflated, len_compressed, ..self@ }),
    {
        MagesEntry {
            id: self.id,
            name: self.name.clone(),
            offset,
            len_deflated,
            len_compressed,
            cpr_indicator: self.cpr_indicator,
            compressed: self.compressed,
        }
    }

    /// Appends the entry's table record.
    pub fn write_header(&self, out: &mut Vec<u8>, version: &MpkVersion) -> (r: Result<
        (),
        ArchiveError,
    >)
        ensures
            match record_result(version.is_old_format, self@) {
                Ok(rec) => r is Ok && final(out)@ == old(out)@ + rec,
                Err(e) => r == Err::<(), ArchiveError>(e) && final(out)@ == old(out)@,
            },
    {
        proof {
            lemma_pow256_eight();
        }
        if version.is_old_format && (self.offset >= 0x1_0000_0000 || self.len_compressed
            >= 0x1_0000_0000 || self.len_deflated >= 0x1_0000_0000) {
            return Err(ArchiveError::ValueTooLargeForFormat);
        }
        let field = match copy_name_bytes(self.name.as_str()) {
            Ok(f) => f,
            Err(e) => return Err(e),
        };
        let ghost start = out@;
        if version.is_old_format {
            push_le(out, self.id as u64, 4);
            push_le(out, self.offset, 4);
            push_le(out, self.len_compressed, 4);
            push_le(out, self.len_deflated, 4);
            push_zeros(out, 16);
        } else {
            push_le(out, self.cpr_indicator as u64, 4);
            push_le(out, self.id as u64, 4);
            push_le(out, self.offset, 8);
            push_le(out, self.len_compressed, 8);
            push_le(out, self.len_deflated, 8);
        }
        append_range(out, field.as_slice(), 0, field.len());
        proof {
            assert(field@.subrange(0, field@.len() as int) =~= field@);
            assert(out@ =~= start + encode_record(version.is_old_format, self@));
        }
        Ok(())
    }

    /// The entry's content, read from the archive bytes `source`.
    pub fn extract(&self, source: &[u8]) -> (r: Result<Vec<u8>, ArchiveError>)
        ensures
            match r {
                Ok(v) => extracted(self@, source@) == Ok::<Seq<u8>, ArchiveError>(v@),
                Err(e) => extracted(self@, source@) == Err::<Seq<u8>, ArchiveError>(e),
            },
    {
        let len = source.len() as u64;
        if self.offset > len || self.len_compressed > len - self.offset {
            return Err(ArchiveError::TruncatedRead);
        }
        let stored = copy_range(
            source,
            self.offset as usize,
            (self.offset + self.len_compressed) as usize,
        );
        if self.compressed {
            match zlib_inflate(stored.as_slice()) {
                Some(content) => Ok(content),
                None => Err(ArchiveError::DecompressionError),
            }
        } else {
            Ok(stored)
        }
    }

    /// Appends the data that stores `content` for this entry: compressed where
    /// the entry is compressed, as it is otherwise. Returns the number of bytes appended.
    pub fn repack(&self, content: &[u8], out: &mut Vec<u8>) -> (r: u64)
        ensures
            final(out)@ == old(out)@ + repacked(self@, content@),
            r == repacked(self@, content@).len(),
            self@.compressed ==> zlib_inflated(repacked(self@, content@)) == Some(content@),
    {
        if self.compressed {
            let data = zlib_deflate(content);
            append_range(out, data.as_slice(), 0, data.len());
            proof {
                assert(data@.subrange(0, data@.len() as int) =~= data@);
            }
            data.len() as u64
        } else {
            append_range(out, content, 0, content.len());
            proof {
                assert(content@.subrange(0, content@.len() as int) =~= content@);
            }
            content.len() as u64
        }
    }
}

/// What zlib decompression gives for a byte string: the content, or nothing
/// where the bytes do not start with a complete zlib stream.
pub uninterp spec fn zlib_inflated(data: Seq<u8>) -> Option<Seq<u8>>;

/// What zlib compression at the default level gives for a byte string.
pub uninterp spec fn zlib_deflated(data: Seq<u8>) -> Seq<u8>;

/// Relies on `flate2::read::ZlibDecoder`: reading it to the end yields the
/// stream's content, and fails on a corrupt or incomplete stream.
#[verifier::external_body]
fn zlib_inflate(data: &[u8]) -> (r: Option<Vec<u8>>)
    ensures
        match r {
            Some(v) => zlib_inflated(data@) == Some(v@),
            None => zlib_inflated(data@) is None,
        },
{
    let mut decoder = flate2::read::ZlibDecoder::new(data);
    let mut content = Vec::new();
    std::io::Read::read_to_end(&mut decoder, &mut content).ok().map(|_| content)
}

/// Relies on `flate2::write::ZlibEncoder` at `Compression::default()`: the
/// stream that it writes into a `Vec` decompresses to the input.
#[verifier::external_body]
fn zlib_deflate(data: &[u8]) -> (r: Vec<u8>)
    ensures
        r@ == zlib_deflated(data@),
        zlib_inflated(r@) == Some(data@),
{
    let mut encoder = flate2::write::ZlibEncoder::new(Vec::new(), flate2::Compression::default());
    std::io::Write::write_all(&mut encoder, data).expect("writing into a Vec does not fail");
    encoder.finish().expect("writing into a Vec does not fail")
}

/// What extracting an entry from the archive bytes `source` gives.
pub open spec fn extracted(e: EntryView, source: Seq<u8>) -> Result<Seq<u8>, ArchiveError> {
    if e.offset + e.len_compressed > source.len() {
        Err(ArchiveError::TruncatedRead)
    } else {
        let stored = source.subrange(e.offset as int, e.offset + e.len_compressed);
        if !e.compressed {
            Ok(stored)
        } else {
            match zlib_inflated(stored) {
                Some(content) => Ok(content),
                None => Err(ArchiveError::DecompressionError),
            }
        }
    }
}

/// The data that stores `content` for an entry.
pub open spec fn repacked(e: EntryView, content: Seq<u8>) -> Seq<u8> {
    if e.compressed {
        zlib_deflated(content)
    } else {
        content
    }
}

/// An entry that a table record of the given layout can describe exactly.
pub open spec fn record_shaped(is_old_format: bool, e: EntryView) -> bool {
    &&& name_fits(e.name)
    &&& is_old_format ==> {
        &&& e.cpr_indicator == 0
        &&& e.compressed == (e.len_compressed != e.len_deflated)
        &&& fits_narrow(e)
    }
    &&& !is_old_format ==> e.compressed == (e.cpr_indicator != 0)
}

/// Every entry decoded from a record can be described by one.
pub proof fn lemma_decoded_record_shaped(is_old_format: bool, r: Seq<u8>)
    requires
        r.len() == RECORD_LEN,
        decode_record(is_old_format, r) is Some,
    ensures
        record_shaped(is_old_format, decode_record(is_old_format, r).unwrap()),
{
    lemma_decoded_name_fits(r.subrange(32, 256));
    lemma_pow256_eight();
    lemma_le_value_bound(r.subrange(0, 4));
    lemma_le_value_bound(r.subrange(4, 8));
    lemma_le_value_bound(r.subrange(8, 12));
    lemma_le_value_bound(r.subrange(12, 16));
}

/// Decoding the record of an entry that a record can describe gives the entry back.
pub proof fn lemma_record_round_trip(is_old_format: bool, e: EntryView)
    requires
        record_shaped(is_old_format, e),
    ensures
        record_result(is_old_format, e) == Ok::<Seq<u8>, ArchiveError>(
            encode_record(is_old_format, e),
        ),
        encode_record(is_old_format, e).len() == RECORD_LEN,
        decode_record(is_old_format, encode_record(is_old_format, e)) == Some(e),
{
    lemma_pow256_eight();
    lemma_name_round_trip(e.name);
    let r = encode_record(is_old_format, e);
    let nf = name_field(e.name);
    if is_old_format {
        let a = le_bytes(e.id as nat, 4);
        let b = le_bytes(e.offset as nat, 4);
        let c = le_bytes(e.len_compressed as nat, 4);
        let d = le_bytes(e.len_deflated as nat, 4);
        lemma_le_bytes_len(e.id as nat, 4);
        lemma_le_bytes_len(e.offset as nat, 4);
        lemma_le_bytes_len(e.len_compressed as nat, 4);
        lemma_le_bytes_len(e.len_deflated as nat, 4);
        assert(r =~= a + b + c + d + zeros(16) + nf);
        assert(r.subrange(0, 4) =~= a);
        assert(r.subrange(4, 8) =~= b);
        assert(r.subrange(8, 12) =~= c);
        assert(r.subrange(12, 16) =~= d);
        assert(r.subrange(32, 256) =~= nf);
        lemma_le_round_trip(e.id as nat, 4);
        lemma_le_round_trip(e.offset as nat, 4);
        lemma_le_round_trip(e.len_compressed as nat, 4);
        lemma_le_round_trip(e.len_deflated as nat, 4);
    } else {
        let a = le_bytes(e.cpr_indicator as nat, 4);
        let b = le_bytes(e.id as nat, 4);
        let c = le_bytes(e.offset as nat, 8);
        let d = le_bytes(e.len_compressed as nat, 8);
        let f = le_bytes(e.len_deflated as nat, 8);
        lemma_le_bytes_len(e.cpr_indicator as nat, 4);
        lemma_le_bytes_len(e.id as nat, 4);
        lemma_le_bytes_len(e.offset as nat, 8);
        lemma_le_bytes_len(e.len_compressed as nat, 8);
        lemma_le_bytes_len(e.len_deflated as nat, 8);
        assert(r =~= a + b + c + d + f + nf);
        assert(r.subrange(0, 4) =~= a);
        assert(r.subrange(4, 8) =~= b);
        assert(r.subrange(8, 16) =~= c);
        assert(r.subrange(16, 24) =~= d);
        assert(r.subrange(24, 32) =~= f);
        assert(r.subrange(32, 256) =~= nf);
        lemma_le_round_trip(e.cpr_indicator as nat, 4);
        lemma_le_round_trip(e.id as nat, 4);
        lemma_le_round_trip(e.offset as nat, 8);
        lemma_le_round_trip(e.len_compressed as nat, 8);
        lemma_le_round_trip(e.len_deflated as nat, 8);
    }
}

} // verus!

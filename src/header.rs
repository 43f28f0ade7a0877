//! The binary header of a SID music file: a fixed big-endian layout with an
//! extension that the version field switches on.
use byteorder::ByteOrder;
use vstd::prelude::*;
use vstd::slice::slice_subrange;
use vstd::utf8::{decode_utf8, valid_utf8};

verus! {

/// Length of the base header in bytes.
pub const BASE_HEADER_LEN: usize = 118;

/// Length of the base header together with the extended header.
pub const EXTENDED_HEADER_LEN: usize = 138;

/// Width of each of the three text fields.
pub const TEXT_FIELD_LEN: usize = 32;

/// Why a buffer is not a SID file header.
#[derive(Debug, Clone, Copy, PartialEq, Eq, Structural)]
pub enum FormatError {
    /// The buffer ends before the header does.
    TooShort,
    /// The first four bytes are neither `PSID` nor `RSID`.
    BadMagic,
    /// A text field is not valid UTF-8 up to its first null byte.
    InvalidText,
}

/// The format variant named by the first four bytes.
#[derive(Debug, Clone, Copy, PartialEq, Eq, Structural)]
pub enum MagicId {
    Psid,
    Rsid,
}

/// The base header.
#[derive(Debug, Clone)]
pub struct FileHeader {
    pub magic_id: MagicId,
    pub version: u16,
    pub data_offset: u16,
    pub load_address: u16,
    pub init_address: u16,
    pub play_address: u16,
    pub songs: u16,
    pub start_song: u16,
    pub speed: u32,
    pub name: String,
    pub author: String,
    pub released: String,
}

/// The extended header, present when the version is above 1.
#[derive(Debug, Clone, Copy, PartialEq, Eq, Structural)]
pub struct AdditionalHeader {
    pub flags: u16,
    pub start_page: u8,
    pub page_length: u8,
    pub second_sid_address: u8,
    pub third_sid_address: u8,
}

/// A parsed header: the base part, and the extension when the version asks for one.
#[derive(Debug, Clone)]
pub struct SidFile {
    pub header: FileHeader,
    pub additional: Option<AdditionalHeader>,
}

/// The big-endian 16-bit value at `at`.
pub open spec fn be_u16(b: Seq<u8>, at: int) -> int {
    b[at] * 256 + b[at + 1]
}

/// The big-endian 32-bit value at `at`.
pub open spec fn be_u32(b: Seq<u8>, at: int) -> int {
    b[at] * 16777216 + b[at + 1] * 65536 + b[at + 2] * 256 + b[at + 3]
}

/// The variant named by the first four bytes, if they spell `PSID` or `RSID`.
pub open spec fn magic_of(b: Seq<u8>) -> Option<MagicId> {
    if b[0] == 0x50 && b[1] == 0x53 && b[2] == 0x49 && b[3] == 0x44 {
        Some(MagicId::Psid)
    } else if b[0] == 0x52 && b[1] == 0x53 && b[2] == 0x49 && b[3] == 0x44 {
        Some(MagicId::Rsid)
    } else {
        None
    }
}

/// The number of bytes before the first null byte (the whole length if there is none).
pub open spec fn nul_pos(w: Seq<u8>) -> nat
    decreases w.len(),
{
    if w.len() == 0 || w[0] == 0 {
        0
    } else {
        1 + nul_pos(w.drop_first())
    }
}

/// The bytes before the first null byte.
pub open spec fn trim_nul(w: Seq<u8>) -> Seq<u8> {
    w.take(nul_pos(w) as int)
}

/// The text that a field holds: its bytes up to the first null, decoded, if they are
/// valid UTF-8.
pub open spec fn text_of(w: Seq<u8>) -> Option<Seq<char>> {
    if valid_utf8(trim_nul(w)) {
        Some(decode_utf8(trim_nul(w)))
    } else {
        None
    }
}

/// The 32-byte text field at `at`.
pub open spec fn field_at(b: Seq<u8>, at: int) -> Seq<u8> {
    b.subrange(at, at + 32)
}

/// Whether all three text fields of the base header decode.
pub open spec fn texts_valid(b: Seq<u8>) -> bool {
    text_of(field_at(b, 22)) is Some && text_of(field_at(b, 54)) is Some && text_of(
        field_at(b, 86),
    ) is Some
}

/// Whether the base header can be read from `b`.
pub open spec fn header_ok(b: Seq<u8>) -> bool {
    b.len() >= 118 && magic_of(b) is Some && texts_valid(b)
}

/// Whether `h` holds exactly the fields that `b` encodes.
pub open spec fn header_matches(h: FileHeader, b: Seq<u8>) -> bool {
    &&& Some(h.magic_id) == magic_of(b)
    &&& h.version == be_u16(b, 4)
    &&& h.data_offset == be_u16(b, 6)
    &&& h.load_address == be_u16(b, 8)
    &&& h.init_address == be_u16(b, 10)
    &&& h.play_address == be_u16(b, 12)
    &&& h.songs == be_u16(b, 14)
    &&& h.start_song == be_u16(b, 16)
    &&& h.speed == be_u32(b, 18)
    &&& Some(h.name@) == text_of(field_at(b, 22))
    &&& Some(h.author@) == text_of(field_at(b, 54))
    &&& Some(h.released@) == text_of(field_at(b, 86))
}

/// The extended header that `b` encodes, or why it cannot be read.
pub open spec fn additional_of(b: Seq<u8>) -> Result<AdditionalHeader, FormatError> {
    if b.len() < 138 {
        Err(FormatError::TooShort)
    } else {
        Ok(
            AdditionalHeader {
                flags: be_u16(b, 118) as u16,
                start_page: b[134],
                page_length: b[135],
                second_sid_address: b[136],
                third_sid_address: b[137],
            },
        )
    }
}

/// Relies on byteorder's `BigEndian::read_u16`: the first two bytes, most significant
/// first; it panics on fewer than two.
#[verifier::external_body]
fn read_be_u16(buf: &[u8]) -> (r: u16)
    requires
        buf@.len() >= 2,
    ensures
        r == be_u16(buf@, 0),
{
    byteorder::BigEndian::read_u16(buf)
}

/// Relies on byteorder's `BigEndian::read_u32`: the first four bytes, most significant
/// first; it panics on fewer than four.
#[verifier::external_body]
fn read_be_u32(buf: &[u8]) -> (r: u32)
    requires
        buf@.len() >= 4,
    ensures
        r == be_u32(buf@, 0),
{
    byteorder::BigEndian::read_u32(buf)
}

/// Relies on `String::from_utf8`: it succeeds exactly on valid UTF-8, with the decoded
/// characters.
#[verifier::external_body]
fn string_from_utf8(bytes: Vec<u8>) -> (r: Option<String>)
    ensures
        r is Some <==> valid_utf8(bytes@),
        r matches Some(s) ==> s@ == decode_utf8(bytes@),
{
    String::from_utf8(bytes).ok()
}

proof fn lemma_nul_pos(w: Seq<u8>, k: nat)
    requires
        k <= w.len(),
        forall|i: int| 0 <= i < k ==> w[i] != 0,
        k == w.len() || w[k as int] == 0,
    ensures
        nul_pos(w) == k,
    decreases k,
{
    if k > 0 {
        assert(w.len() > 0 && w[0] != 0);
        let t = w.drop_first();
        assert forall|i: int| 0 <= i < k - 1 implies t[i] != 0 by {
            assert(t[i] == w[i + 1]);
        }
        if k < w.len() {
            assert(t[k - 1] == w[k as int]);
        }
        lemma_nul_pos(t, (k - 1) as nat);
    }
}

/// Decodes a null-padded text field: the bytes before the first null byte, which must
/// be valid UTF-8; the bytes after it are not looked at.
pub fn decode_text(w: &[u8]) -> (r: Result<String, FormatError>)
    ensures
        match r {
            Ok(s) => text_of(w@) == Some(s@),
            Err(e) => text_of(w@) is None && e == FormatError::InvalidText,
        },
{
    let mut k: usize = 0;
    while k < w.len() && w[k] != 0
        invariant
            k <= w@.len(),
            forall|i: int| 0 <= i < k ==> w@[i] != 0,
        decreases w@.len() - k,
    {
        k = k + 1;
    }
    proof {
        lemma_nul_pos(w@, k as nat);
    }
    let mut bytes: Vec<u8> = Vec::new();
    let mut i: usize = 0;
    while i < k
        invariant
            i <= k <= w@.len(),
            bytes@ == w@.take(i as int),
        decreases k - i,
    {
        bytes.push(w[i]);
        i = i + 1;
        assert(bytes@ =~= w@.take(i as int));
    }
    assert(bytes@ =~= trim_nul(w@));
    match string_from_utf8(bytes) {
        Some(s) => Ok(s),
        None => Err(FormatError::InvalidText),
    }
}

fn magic_id(b: &[u8]) -> (r: Option<MagicId>)
    requires
        b@.len() >= 4,
    ensures
        r == magic_of(b@),
{
    if b[0] == 0x50 && b[1] == 0x53 && b[2] == 0x49 && b[3] == 0x44 {
        Some(MagicId::Psid)
    } else if b[0] == 0x52 && b[1] == 0x53 && b[2] == 0x49 && b[3] == 0x44 {
        Some(MagicId::Rsid)
    } else {
        None
    }
}

/// Reads the base header.
pub fn parse_header(b: &[u8]) -> (r: Result<FileHeader, FormatError>)
    ensures
        r is Ok <==> header_ok(b@),
        b@.len() < 118 ==> r == Err::<FileHeader, FormatError>(FormatError::TooShort),
        b@.len() >= 118 && magic_of(b@) is None ==> r == Err::<FileHeader, FormatError>(
            FormatError::BadMagic,
        ),
        b@.len() >= 118 && magic_of(b@) is Some && !texts_valid(b@) ==> r == Err::<
            FileHeader,
            FormatError,
        >(FormatError::InvalidText),
        r matches Ok(h) ==> header_matches(h, b@),
{
    if b.len() < BASE_HEADER_LEN {
        return Err(FormatError::TooShort);
    }
    let magic_id = match magic_id(b) {
        Some(m) => m,
        None => { return Err(FormatError::BadMagic); },
    };
    let name = decode_text(slice_subrange(b, 22, 54));
    let author = decode_text(slice_subrange(b, 54, 86));
    let released = decode_text(slice_subrange(b, 86, 118));
    let (name, author, released) = match (name, author, released) {
        (Ok(n), Ok(a), Ok(r)) => (n, a, r),
        _ => { return Err(FormatError::InvalidText); },
    };
    Ok(
        FileHeader {
            magic_id,
            version: read_be_u16(slice_subrange(b, 4, 6)),
            data_offset: read_be_u16(slice_subrange(b, 6, 8)),
            load_address: read_be_u16(slice_subrange(b, 8, 10)),
            init_address: read_be_u16(slice_subrange(b, 10, 12)),
            play_address: read_be_u16(slice_subrange(b, 12, 14)),
            songs: read_be_u16(slice_subrange(b, 14, 16)),
            start_song: read_be_u16(slice_subrange(b, 16, 18)),
            speed: read_be_u32(slice_subrange(b, 18, 22)),
            name,
            author,
            released,
        },
    )
}

/// Reads the extended header.
pub fn parse_additional(b: &[u8]) -> (r: Result<AdditionalHeader, FormatError>)
    ensures
        r == additional_of(b@),
{
    if b.len() < EXTENDED_HEADER_LEN {
        return Err(FormatError::TooShort);
    }
    Ok(
        AdditionalHeader {
            flags: read_be_u16(slice_subrange(b, 118, 134)),
            start_page: b[134],
            page_length: b[135],
            second_sid_address: b[136],
            third_sid_address: b[137],
        },
    )
}

/// Whether `f` is what `b` holds: the base header, and the extended header exactly when
/// the version is above 1.
pub open spec fn file_matches(f: SidFile, b: Seq<u8>) -> bool {
    &&& header_matches(f.header, b)
    &&& if f.header.version > 1 {
        f.additional is Some && additional_of(b) == Ok::<AdditionalHeader, FormatError>(f.additional->0)
    } else {
        f.additional is None
    }
}

/// Reads the base header and, when its version is above 1, the extended header.
pub fn parse(b: &[u8]) -> (r: Result<SidFile, FormatError>)
    ensures
        r is Ok <==> header_ok(b@) && (be_u16(b@, 4) > 1 ==> b@.len() >= 138),
        b@.len() < 118 ==> r == Err::<SidFile, FormatError>(FormatError::TooShort),
        b@.len() >= 118 && magic_of(b@) is None ==> r == Err::<SidFile, FormatError>(
            FormatError::BadMagic,
        ),
        b@.len() >= 118 && magic_of(b@) is Some && !texts_valid(b@) ==> r == Err::<
            SidFile,
            FormatError,
        >(FormatError::InvalidText),
        header_ok(b@) && be_u16(b@, 4) > 1 && b@.len() < 138 ==> r == Err::<
            SidFile,
            FormatError,
        >(FormatError::TooShort),
        r matches Ok(f) ==> file_matches(f, b@),
{
    let header = match parse_header(b) {
        Ok(h) => h,
        Err(e) => { return Err(e); },
    };
    let additional = if header.version > 1 {
        match parse_additional(b) {
            Ok(a) => Some(a),
            Err(e) => { return Err(e); },
        }
    } else {
        None
    };
    Ok(SidFile { header, additional })
}

} // verus!

//! The binary layout of a PNG file: an 8-byte signature, then chunks of
//! length (4 bytes, big-endian) + type (4 bytes) + data (length bytes) + CRC (4 bytes).

use vstd::prelude::*;

verus! {

/// PNG file signature (8 bytes).
pub const PNG_SIGNATURE: [u8; 8] = [137, 80, 78, 71, 13, 10, 26, 10];

/// The chunk type `tEXt`.
pub const TEXT_TAG: [u8; 4] = [116, 69, 88, 116];

/// The chunk type `IEND`.
pub const IEND_TAG: [u8; 4] = [73, 69, 78, 68];

/// Why a byte buffer was not accepted as a PNG file, or could not be edited.
#[derive(Debug, Clone, Copy, PartialEq, Eq, Structural)]
pub enum PngError {
    /// The data ended before a required read (the signature, or the data of a `tEXt` chunk).
    UnexpectedEof,
    /// The data does not start with the PNG signature.
    NotPng,
    /// Walking the chunks overflowed the address range.
    ChunkSizeOverflow,
    /// No `IEND` chunk was found.
    IendNotFound,
}

impl PngError {
    /// A human-readable description of the error.
    pub fn message(&self) -> (s: &'static str)
        ensures
            *self == PngError::UnexpectedEof ==> s@ == "failed to fill whole buffer"@,
            *self == PngError::NotPng ==> s@ == "not a PNG file"@,
            *self == PngError::ChunkSizeOverflow ==> s@ == "chunk size overflow"@,
            *self == PngError::IendNotFound ==> s@ == "IEND chunk not found"@,
    {
        match self {
            PngError::UnexpectedEof => "failed to fill whole buffer",
            PngError::NotPng => "not a PNG file",
            PngError::ChunkSizeOverflow => "chunk size overflow",
            PngError::IendNotFound => "IEND chunk not found",
        }
    }
}

/// The signature as a sequence.
pub open spec fn png_signature() -> Seq<u8> {
    seq![137u8, 80u8, 78u8, 71u8, 13u8, 10u8, 26u8, 10u8]
}

/// `tEXt` as a sequence.
pub open spec fn text_tag() -> Seq<u8> {
    seq![116u8, 69u8, 88u8, 116u8]
}

/// `IEND` as a sequence.
pub open spec fn iend_tag() -> Seq<u8> {
    seq![73u8, 69u8, 78u8, 68u8]
}

/// The value of four bytes read as a big-endian unsigned integer.
pub open spec fn be_u32(b0: u8, b1: u8, b2: u8, b3: u8) -> int {
    b0 as int * 0x100_0000 + b1 as int * 0x1_0000 + b2 as int * 0x100 + b3 as int
}

/// The big-endian integer stored at `offset` in `d`.
pub open spec fn be_u32_at(d: Seq<u8>, offset: int) -> int {
    be_u32(d[offset], d[offset + 1], d[offset + 2], d[offset + 3])
}

/// The four big-endian bytes of `x`.
pub open spec fn be_bytes(x: u32) -> Seq<u8> {
    seq![
        (x / 0x100_0000) as u8,
        ((x / 0x1_0000) % 0x100) as u8,
        ((x / 0x100) % 0x100) as u8,
        (x % 0x100) as u8,
    ]
}

/// Whether the four bytes after the length field of the chunk at `pos` are `tag`.
pub open spec fn has_tag(d: Seq<u8>, pos: int, tag: Seq<u8>) -> bool {
    d.subrange(pos + 4, pos + 8) == tag
}

/// Whether `d` starts with the PNG signature.
pub open spec fn starts_with_signature(d: Seq<u8>) -> bool {
    d.len() >= 8 && d.subrange(0, 8) == png_signature()
}

/// Read a big-endian u32 from a byte slice at the given offset.
pub fn read_u32_be(data: &[u8], offset: usize) -> (v: u32)
    requires
        offset + 4 <= data@.len(),
    ensures
        v as int == be_u32_at(data@, offset as int),
{
    let b0 = data[offset] as u32;
    let b1 = data[offset + 1] as u32;
    let b2 = data[offset + 2] as u32;
    let b3 = data[offset + 3] as u32;
    b0 * 0x100_0000 + b1 * 0x1_0000 + b2 * 0x100 + b3
}

/// The four big-endian bytes of `x`.
pub fn u32_to_be_bytes(x: u32) -> (b: [u8; 4])
    ensures
        b@ == be_bytes(x),
        be_u32(b@[0], b@[1], b@[2], b@[3]) == x,
{
    let b = [
        (x / 0x100_0000) as u8,
        ((x / 0x1_0000) % 0x100) as u8,
        ((x / 0x100) % 0x100) as u8,
        (x % 0x100) as u8,
    ];
    assert(b@ == be_bytes(x));
    b
}

/// Whether the four bytes at `pos + 4` equal `tag`.
pub fn chunk_type_is(data: &[u8], pos: usize, tag: &[u8; 4]) -> (r: bool)
    requires
        pos + 8 <= data@.len(),
    ensures
        r == has_tag(data@, pos as int, tag@),
{
    let mut i: usize = 0;
    while i < 4
        invariant
            i <= 4,
            pos + 8 <= data.len(),
            forall|j: int| 0 <= j < i ==> data@[pos + 4 + j] == tag@[j],
        decreases 4 - i,
    {
        if data[pos + 4 + i] != tag[i] {
            assert(data@.subrange(pos + 4, pos + 8)[i as int] != tag@[i as int]);
            return false;
        }
        i += 1;
    }
    assert(data@.subrange(pos as int + 4, pos as int + 8) =~= tag@);
    true
}

/// Whether `data` starts with the PNG signature.
pub fn has_png_signature(data: &[u8]) -> (r: bool)
    ensures
        r == starts_with_signature(data@),
{
    if data.len() < 8 {
        return false;
    }
    let sig = PNG_SIGNATURE;
    assert(sig@ == png_signature());
    let mut i: usize = 0;
    while i < 8
        invariant
            i <= 8,
            8 <= data@.len(),
            sig@ == png_signature(),
            forall|j: int| 0 <= j < i ==> data@[j] == sig@[j],
        decreases 8 - i,
    {
        if data[i] != sig[i] {
            assert(data@.subrange(0, 8)[i as int] != png_signature()[i as int]);
            return false;
        }
        i += 1;
    }
    assert(data@.subrange(0, 8) =~= png_signature());
    true
}

} // verus!

use vstd::prelude::*;

verus! {

/// The number of bytes of the header.
pub const HEADER_LEN: usize = 14;

/// What the header says of the image. `channels` and `colorspace` are
/// carried through as they stand; no value of them is refused.
#[derive(Clone, Copy, Debug, PartialEq, Eq, Structural)]
pub struct Header {
    pub width: u32,
    pub height: u32,
    pub channels: u8,
    pub colorspace: u8,
}

impl Header {
    /// The number of pixels of the image.
    pub open spec fn pixel_count(self) -> nat {
        (self.width * self.height) as nat
    }
}

/// Why a buffer could not be decoded.
#[derive(Clone, Copy, Debug, PartialEq, Eq, Structural)]
pub enum DecodeError {
    /// The first four bytes are not the tag `qoif`.
    MagicMismatch,
    /// The bytes end before a field that must be read.
    TruncatedInput,
    /// What follows the last pixel is not exactly the end marker.
    InvalidEndMarker,
}

/// The tag that opens every image: the ASCII bytes of `qoif`.
pub open spec fn magic() -> Seq<u8> {
    seq![0x71, 0x6f, 0x69, 0x66]
}

/// The big-endian value of four bytes.
pub open spec fn be_u32(b0: u8, b1: u8, b2: u8, b3: u8) -> u32 {
    (b0 * 0x1000000 + b1 * 0x10000 + b2 * 0x100 + b3) as u32
}

/// The header that opens `bytes`. The tag is read, and compared, before
/// anything else.
pub open spec fn parse_header(bytes: Seq<u8>) -> Result<Header, DecodeError> {
    if bytes.len() < 4 {
        Err(DecodeError::TruncatedInput)
    } else if bytes.take(4) != magic() {
        Err(DecodeError::MagicMismatch)
    } else if bytes.len() < 14 {
        Err(DecodeError::TruncatedInput)
    } else {
        Ok(
            Header {
                width: be_u32(bytes[4], bytes[5], bytes[6], bytes[7]),
                height: be_u32(bytes[8], bytes[9], bytes[10], bytes[11]),
                channels: bytes[12],
                colorspace: bytes[13],
            },
        )
    }
}

fn read_be_u32(bytes: &[u8], pos: usize) -> (v: u32)
    requires
        pos + 4 <= bytes@.len(),
    ensures
        v == be_u32(bytes@[pos as int], bytes@[pos + 1], bytes@[pos + 2], bytes@[pos + 3]),
{
    (bytes[pos] as u32) * 0x1000000 + (bytes[pos + 1] as u32) * 0x10000 + (bytes[pos + 2] as u32)
        * 0x100 + bytes[pos + 3] as u32
}

fn has_magic(bytes: &[u8]) -> (r: bool)
    requires
        bytes@.len() >= 4,
    ensures
        r == (bytes@.take(4) == magic()),
{
    let r = bytes[0] == 0x71 && bytes[1] == 0x6f && bytes[2] == 0x69 && bytes[3] == 0x66;
    if r {
        assert(bytes@.take(4) =~= magic());
    } else {
        assert(!(bytes@.take(4) =~= magic()));
    }
    r
}

/// Reads the header that opens `bytes`.
pub fn read_header(bytes: &[u8]) -> (r: Result<Header, DecodeError>)
    ensures
        r == parse_header(bytes@),
{
    if bytes.len() < 4 {
        return Err(DecodeError::TruncatedInput);
    }
    if !has_magic(bytes) {
        return Err(DecodeError::MagicMismatch);
    }
    if bytes.len() < HEADER_LEN {
        return Err(DecodeError::TruncatedInput);
    }
    Ok(
        Header {
            width: read_be_u32(bytes, 4),
            height: read_be_u32(bytes, 8),
            channels: bytes[12],
            colorspace: bytes[13],
        },
    )
}

} // verus!

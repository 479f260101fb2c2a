use vstd::prelude::*;

use crate::error::{OpbError, OpbStage};

verus! {

/// The number of bytes in the file tag.
pub const FILE_ID_SIZE: usize = 7;

/// The number of bytes in a whole header.
pub const HEADER_SIZE: usize = 20;

/// The file tag `OPBin1` followed by a zero byte.
pub open spec fn file_id() -> Seq<u8> {
    seq![0x4fu8, 0x50u8, 0x42u8, 0x69u8, 0x6eu8, 0x31u8, 0x00u8]
}

/// How the command stream of a file is laid out.
#[derive(Clone, Copy, Debug, PartialEq, Eq)]
pub enum OpbFormat {
    /// Commands name a dictionary entry.
    Standard,
    /// Commands carry their address and data.
    Raw,
}

/// The fixed-size block at the start of a file.
#[derive(Clone, Copy, Debug, PartialEq, Eq)]
pub struct OpbHeader {
    pub id: [u8; 7],
    pub fmt: OpbFormat,
    pub size: u32,
    pub num_instruments: u32,
    pub num_chunks: u32,
}

/// The big-endian 32-bit integer in the four bytes at `p`.
pub open spec fn be_u32_at(b: Seq<u8>, p: int) -> u32 {
    (b[p] as int * 0x100_0000 + b[p + 1] as int * 0x1_0000 + b[p + 2] as int * 0x100 + b[p + 3] as int) as u32
}

/// The format that a format byte of 0 or 1 stands for.
pub open spec fn format_of(x: u8) -> OpbFormat {
    if x == 0 {
        OpbFormat::Standard
    } else {
        OpbFormat::Raw
    }
}

/// The header that a buffer starts with, or the error that reading it gives.
pub open spec fn header_at(b: Seq<u8>) -> Result<OpbHeader, OpbError> {
    if b.len() < 7 {
        Err(OpbError::Truncated(OpbStage::Header))
    } else if b.subrange(0, 7) != file_id() {
        Err(OpbError::NotAnOpbFile([b[0], b[1], b[2], b[3], b[4], b[5], b[6]]))
    } else if b.len() < 8 {
        Err(OpbError::Truncated(OpbStage::Header))
    } else if b[7] > 1 {
        Err(OpbError::UnsupportedFormat(b[7]))
    } else if b.len() < 20 {
        Err(OpbError::Truncated(OpbStage::Header))
    } else {
        Ok(
            OpbHeader {
                id: [b[0], b[1], b[2], b[3], b[4], b[5], b[6]],
                fmt: format_of(b[7]),
                size: be_u32_at(b, 8),
                num_instruments: be_u32_at(b, 12),
                num_chunks: be_u32_at(b, 16),
            },
        )
    }
}

/// Reads the big-endian 32-bit integer at `p`.
pub fn read_be_u32(b: &[u8], p: usize) -> (r: u32)
    requires
        p + 4 <= b@.len(),
    ensures
        r == be_u32_at(b@, p as int),
{
    let x: u32 = (b[p] as u32) * 0x100_0000 + (b[p + 1] as u32) * 0x1_0000 + (b[p + 2] as u32) * 0x100
        + (b[p + 3] as u32);
    x
}

/// Reads and checks the header at the start of a file. On success the rest
/// of the file starts at the returned offset, which is always 20.
pub fn parse_header(input: &[u8]) -> (r: Result<(OpbHeader, usize), OpbError>)
    ensures
        match r {
            Ok((h, next)) => header_at(input@) == Ok::<OpbHeader, OpbError>(h) && next == HEADER_SIZE,
            Err(e) => header_at(input@) == Err::<OpbHeader, OpbError>(e),
        },
{
    if input.len() < FILE_ID_SIZE {
        return Err(OpbError::Truncated(OpbStage::Header));
    }
    let id: [u8; 7] = [input[0], input[1], input[2], input[3], input[4], input[5], input[6]];
    if !(input[0] == 0x4f && input[1] == 0x50 && input[2] == 0x42 && input[3] == 0x69 && input[4] == 0x6e
        && input[5] == 0x31 && input[6] == 0x00) {
        proof {
            if input@.subrange(0, 7) == file_id() {
                assert(input@[0] == input@.subrange(0, 7)[0]);
                assert(input@[1] == input@.subrange(0, 7)[1]);
                assert(input@[2] == input@.subrange(0, 7)[2]);
                assert(input@[3] == input@.subrange(0, 7)[3]);
                assert(input@[4] == input@.subrange(0, 7)[4]);
                assert(input@[5] == input@.subrange(0, 7)[5]);
                assert(input@[6] == input@.subrange(0, 7)[6]);
            }
        }
        return Err(OpbError::NotAnOpbFile(id));
    }
    assert(input@.subrange(0, 7) =~= file_id());
    if input.len() < 8 {
        return Err(OpbError::Truncated(OpbStage::Header));
    }
    let fmt_byte = input[7];
    if fmt_byte > 1 {
        return Err(OpbError::UnsupportedFormat(fmt_byte));
    }
    let fmt = if fmt_byte == 0 {
        OpbFormat::Standard
    } else {
        OpbFormat::Raw
    };
    if input.len() < HEADER_SIZE {
        return Err(OpbError::Truncated(OpbStage::Header));
    }
    let size = read_be_u32(input, 8);
    let num_instruments = read_be_u32(input, 12);
    let num_chunks = read_be_u32(input, 16);
    Ok((OpbHeader { id, fmt, size, num_instruments, num_chunks }, HEADER_SIZE))
}

/// A header that is accepted has the file tag in its first seven bytes and
/// one of the two formats; a buffer whose first seven bytes differ from the
/// tag in any one byte is refused with those bytes.
pub proof fn lemma_header_tag(b: Seq<u8>, i: int)
    requires
        0 <= i < 7,
    ensures
        header_at(b) is Ok ==> b.subrange(0, 7) == file_id() && (header_at(b).unwrap().fmt == OpbFormat::Standard
            || header_at(b).unwrap().fmt == OpbFormat::Raw),
        b.len() >= 7 && b[i] != file_id()[i] ==> header_at(b) == Err::<OpbHeader, OpbError>(
            OpbError::NotAnOpbFile([b[0], b[1], b[2], b[3], b[4], b[5], b[6]]),
        ),
{
    if b.len() >= 7 && b[i] != file_id()[i] {
        assert(b.subrange(0, 7)[i] == b[i]);
    }
}

/// Any buffer that stops short of the end of an accepted header is refused
/// as truncated.
pub proof fn lemma_header_truncated(b: Seq<u8>, k: int)
    requires
        header_at(b) is Ok,
        0 <= k < HEADER_SIZE,
    ensures
        header_at(b.take(k)) == Err::<OpbHeader, OpbError>(OpbError::Truncated(OpbStage::Header)),
{
    let c = b.take(k);
    if k >= 7 {
        assert(c.subrange(0, 7) =~= b.subrange(0, 7));
    }
}

} // verus!

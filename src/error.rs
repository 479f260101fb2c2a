use vstd::prelude::*;

verus! {

/// The stage of the decoder that ran out of input.
#[derive(Clone, Copy, Debug, PartialEq, Eq)]
pub enum OpbStage {
    Varint,
    Header,
    Instruments,
    Dictionary,
    Commands,
}

/// Why a buffer could not be decoded.
#[derive(Clone, Copy, Debug, PartialEq, Eq)]
pub enum OpbError {
    /// The first seven bytes are not the file tag; carries the bytes read.
    NotAnOpbFile([u8; 7]),
    /// The format byte is neither 0 nor 1; carries the byte.
    UnsupportedFormat(u8),
    /// A stage needed more bytes than were left.
    Truncated(OpbStage),
    /// A command named a dictionary entry past the end of the dictionary.
    BadDictionaryReference { index: u32, len: usize },
}

} // verus!

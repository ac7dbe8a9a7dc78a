use vstd::prelude::*;

verus! {

/// Why decompressing a zlib stream failed.
#[derive(Debug, Clone, Copy, PartialEq, Eq, Structural)]
pub enum InflateError {
    /// The zlib envelope is shorter than its 2-byte header and 4-byte trailer.
    TooShort,
    /// A read went past the end of the compressed data.
    Truncated,
    /// A block header carries the reserved block type 3.
    ReservedBlockType,
    /// No code of at most 15 bits matches the bits in the stream.
    InvalidCode,
    /// A literal/length or code-length symbol that has no meaning.
    InvalidSymbol,
    /// A distance symbol of 30 or more.
    InvalidDistanceSymbol,
    /// A back-reference that reaches before the start of the output.
    DistanceTooFar,
    /// Code-length symbol 16 with no previous length to repeat.
    RepeatWithoutLength,
}

} // verus!

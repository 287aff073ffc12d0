//! The ways in which an operation of the tokenizer can fail.

use vstd::prelude::*;

verus! {

/// What is wrong with a model file.
#[derive(Debug, Clone, Copy, PartialEq, Eq, Structural)]
pub enum FormatFault {
    /// The first line is not the format tag.
    BadTag,
    /// The file ends before the pattern line, the count line, or the last
    /// special-token line that the count announces.
    Truncated,
    /// A line does not have as many fields as its place in the file asks for.
    WrongFieldCount,
    /// A field that has to be a token id is not the decimal form of one.
    NotANumber,
    /// There are more merges than ids to give them.
    TooManyMerges,
}

/// Why an operation of the tokenizer failed.
#[derive(Debug, Clone, Copy, PartialEq, Eq, Structural)]
pub enum BpeError {
    /// A vocabulary size below the 256 raw bytes was asked for.
    InvalidArgument,
    /// An id to decode has no entry in the vocabulary.
    LookupError { id: i32 },
    /// The model file is malformed at the given line (counted from 0).
    FormatError { line: usize, fault: FormatFault },
}

} // verus!

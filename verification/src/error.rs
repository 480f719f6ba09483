use vstd::prelude::*;

verus! {

/// What reading from or writing to the coded stream can fail with.
#[derive(Debug, Clone, Copy, PartialEq, Eq, Structural)]
pub enum IoError {
    /// The coded stream ended before a byte that the coder needed.
    UnexpectedEof,
    /// The coded stream holds data that does not decode.
    InvalidData,
}

/// The errors of the library.
#[derive(Debug, Clone, Copy, PartialEq, Eq, Structural)]
pub enum Error {
    /// The first bytes of the coded stream are not a valid range coder start.
    RangeDecoderInitialization,
    /// The order or the memory size is out of its range.
    InvalidParameter,
    /// The model memory could not be obtained.
    MemoryAllocation,
    /// Reading or writing the coded stream failed.
    IoError(IoError),
}

} // verus!

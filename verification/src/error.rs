use vstd::prelude::*;

verus! {

/// Why a stream was rejected as a model file, or a model could not be stored.
#[derive(Clone, Copy, Debug, PartialEq, Eq, Structural)]
pub enum Error {
    /// The stream ended inside a record.
    UnexpectedEof,
    /// A section did not start with its four magic bytes.
    BadMagic,
    /// A face declared a vertex count other than 3 or 4.
    BadVertexCount,
    /// A null-terminated string was not valid UTF-8.
    InvalidUtf8,
    /// A compressed integer does not fit in 32 bits.
    IntOverflow,
    /// A length does not fit the 32-bit field that stores it.
    TooLarge,
}

impl Error {
    /// True for the errors that describe malformed input, as opposed to a model
    /// that is too large to be stored.
    pub fn is_format_error(&self) -> (r: bool)
        ensures
            r == !(*self matches Error::TooLarge),
    {
        match self {
            Error::TooLarge => false,
            _ => true,
        }
    }
}

} // verus!

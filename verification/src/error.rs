//! Why an operation was refused.
use vstd::prelude::*;

verus! {

/// The two ways in which the text of a request can be wrong. A request that
/// is refused leaves the document as it was.
#[derive(Clone, Copy, Debug, PartialEq, Eq, Structural)]
pub enum Error {
    /// The path cannot be read, or names a step that the operation does not
    /// take.
    MalformedPath,
    /// The literal opens an array or a table that it does not close, or
    /// promises an array and holds none.
    MalformedLiteral,
}

impl Error {
    /// What went wrong, in words.
    pub fn message(&self) -> (r: &'static str)
        ensures
            r@ == match self {
                Error::MalformedPath => "the key cannot be read as a path"@,
                Error::MalformedLiteral => "the value opens an array or a table that it does not close"@,
            },
    {
        match self {
            Error::MalformedPath => "the key cannot be read as a path",
            Error::MalformedLiteral => "the value opens an array or a table that it does not close",
        }
    }
}

} // verus!

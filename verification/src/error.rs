use vstd::prelude::*;

verus! {

/// Errors reported by the library.
#[derive(Clone, Copy, Debug, PartialEq, Eq, Structural)]
pub enum Error {
    /// A tree operation failed.
    Tree,
    /// A document could not be parsed.
    Parser,
    /// An XPath evaluation failed.
    XPath,
    /// A string meant for the C side held a NUL character at this byte position.
    CStr(usize),
}

/// The result of a fallible operation of the library.
pub type Result<T> = core::result::Result<T, Error>;

} // verus!

use vstd::prelude::*;

verus! {

/// Why an operation of this crate failed.
#[derive(Debug, PartialEq, Eq)]
pub enum Error {
    /// `must_get` was asked for a key under which the store holds no blob.
    NotFound,
    /// The store underneath could not serve the request; the text is its own.
    Transport(String),
    /// Bytes that do not decode: a truncated or overflowing varint, a record
    /// that runs past the end of its block, trailing bytes after a location,
    /// or a compression frame that does not open.
    Codec,
    /// A request that the machine's integers cannot carry out: a writer has
    /// used up its block ids.
    Usage,
}

} // verus!

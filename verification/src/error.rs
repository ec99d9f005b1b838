use vstd::prelude::*;

verus! {

/// The ways an operation of the store can fail.
#[derive(Debug, Clone, Copy, PartialEq, Eq, Structural)]
pub enum Error {
    /// A caller-supplied value is outside the accepted range: a page size
    /// below the minimum, a key or value that is too long, a page size that
    /// differs from the one the file was created with.
    InvalidArgument,
    /// The bytes of the file do not describe a database: no meta record
    /// with a matching checksum, an unknown node kind, an impossible
    /// length.
    Corruption,
    /// The bytes that were asked for lie outside the file.
    Io,
    /// A key that was looked up is absent.
    NotFound,
    /// The staged state of a write transaction contradicts itself.
    WouldCorrupt,
}

} // verus!

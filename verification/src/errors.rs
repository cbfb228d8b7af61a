use vstd::prelude::*;

verus! {

/// The error kinds surfaced by the repository core.
#[derive(Debug, Clone, PartialEq, Eq)]
pub enum Error {
    /// The underlying object store failed, or refused an operation
    /// (for example a pack id collision on write).
    Store,
    /// `init` was called on a store that already holds a repository.
    AlreadyInitialized,
    /// `open` was called on a store with no repository config.
    NotARepository,
    /// The repository config names a format version this code does not read.
    UnsupportedVersion(u32),
    /// Pack, index, config or snapshot bytes were malformed.
    Parse,
    /// A chunk reference points at a hash that is absent from the index.
    MissingBlob,
    /// Authenticated decryption failed, or key material was rejected.
    Crypto,
    /// No snapshot matches the requested id or prefix.
    NotFound,
}

} // verus!

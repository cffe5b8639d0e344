use vstd::prelude::*;

verus! {

/// The ways in which an operation can fail.
#[derive(Clone, Copy, Debug, PartialEq, Eq, Structural)]
pub enum Error {
    /// The storage medium refused a read, write, copy, delete or symlink.
    IoFailure,
    /// A bundle or lock record could not be encoded or decoded.
    SerializationFailure,
    /// The user's home directory is unknown.
    HomeDirectoryNotFound,
    /// A path has no final component that could name a stored copy.
    PathComponentInvalid,
    /// The bundle has no directory in the storage area.
    BundleNotFound,
    /// The bundle's directory holds no metadata file.
    BundleMissingMetadata,
    /// A directory is needed where a file or a symlink already is.
    PathConflict,
    /// The source of a copy does not exist.
    SourceNotFound,
    /// Nothing exists at the path that was to be read.
    NotFound,
    /// What exists at the path that was to be read is not a readable file.
    NotReadable,
    /// No interactive answer could be obtained.
    Environment,
}

} // verus!

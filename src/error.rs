use vstd::prelude::*;

verus! {

/// Why the root path cannot be walked.
#[derive(Clone, Copy, Debug, PartialEq, Eq, Structural)]
pub enum RootProblem {
    Missing,
    IsFile,
    IsSymlink,
    UnknownKind,
}

/// Every way a digest computation can fail; each is fatal.
#[derive(Debug, PartialEq, Eq)]
pub enum DigestError {
    /// The root is missing, not a directory, or a symlink.
    InvalidRoot(RootProblem),
    /// A symlink or another non-regular node was met during the walk.
    UnsupportedEntryKind,
    /// A path segment cannot be represented as text.
    NonUnicodePath,
    /// The filesystem failed while enumerating or reading.
    WalkIoError { path: String, cause: String },
}

} // verus!

use vstd::prelude::*;

verus! {

/// The failure taxonomy the engine exposes to its callers.
///
/// Every operation reports its failure through exactly one of these kinds;
/// nothing is swallowed and nothing is retried.  `CycleDetected` is not here:
/// a detected symlink cycle is a non-fatal marker entry in a walk, never a
/// failure of the walk itself.
#[derive(Clone, Copy, Debug, PartialEq, Eq, Structural)]
pub enum FsError {
    /// The addressed entry (or a needed ancestor) does not exist.
    NotFound,
    /// An entry already occupies the destination.
    AlreadyExists,
    /// The entry exists but may not be read.
    PermissionDenied,
    /// A file operation addressed a directory.
    IsADirectory,
    /// A non-recursive folder delete addressed a non-empty directory.
    NotEmpty,
    /// A raw path or segment could not be normalized into a usable path.
    InvalidPath,
    /// The host offers no trash facility.
    UnsupportedPlatform,
    /// A search query with neither a name pattern nor a content pattern.
    EmptyQuery,
}

} // verus!

use vstd::prelude::*;

verus! {

/// File creation and modification times in seconds since the unix epoch, as
/// the filesystem reports them.
#[derive(Debug, Clone, Copy, PartialEq, Eq, Structural)]
pub struct FileStats {
    pub created: i64,
    pub modified: i64,
}

impl FileStats {
    /// Package the two filesystem times; a missing creation time falls back
    /// to the modification time at the caller.
    pub fn from_times(created: i64, modified: i64) -> (r: Self)
        ensures
            r.created == created,
            r.modified == modified,
    {
        FileStats { created, modified }
    }
}

/// Marker for the file-stats pass; the scanning shell drives it.
#[derive(Debug)]
pub struct FileStatsCalculator {
}

} // verus!

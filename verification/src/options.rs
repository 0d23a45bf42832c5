//! The settings of the copy engine.

use vstd::prelude::*;

verus! {

/// When to clone a file copy-on-write instead of copying its bytes.
#[derive(Debug, Clone, Copy, PartialEq, Eq, Structural)]
pub enum Reflink {
    /// Clone, and fail where the filesystem cannot.
    Always,
    /// Clone where the filesystem can, copy where it cannot.
    Auto,
    /// Always copy.
    Never,
}

/// Which attributes of a source file its copy carries over.
#[derive(Debug, Clone, Copy, PartialEq, Eq, Structural)]
pub struct Preserve {
    /// The mode bits and extended attributes.
    pub permissions: bool,
    /// The owning user and group.
    pub ownership: bool,
    /// The times of last access and modification.
    pub timestamps: bool,
}

/// The recognised settings. They are fixed once the engine starts.
#[derive(Debug, Clone, Copy, PartialEq, Eq, Structural)]
pub struct Opts {
    /// Bytes per copy task.
    pub block_size: u64,
    /// Threads in the block pool.
    pub num_workers: usize,
    /// Refuse to overwrite a destination that exists.
    pub no_clobber: bool,
    /// The copy-on-write policy.
    pub reflink: Reflink,
    /// The attributes to carry over.
    pub preserve: Preserve,
    /// Flush each destination before it is closed.
    pub fsync: bool,
}

} // verus!

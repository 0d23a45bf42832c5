//! The error kinds of the copy engine.

use vstd::prelude::*;
use crate::paths::TreePath;

verus! {

/// What can go wrong while planning or running a copy.
#[derive(Debug, Clone, PartialEq, Eq)]
pub enum XcpError {
    /// An operating-system call failed on `path` with `errno`.
    Io { path: TreePath, errno: i32 },
    /// The source cannot be copied as given.
    InvalidSource(String),
    /// The destination exists and overwriting was refused.
    DestinationExists(TreePath),
    /// A tree entry is of no file type the copier knows.
    UnknownFileType(TreePath),
    /// The engine does not run on this operating system.
    UnsupportedOS(String),
    /// A reflink was demanded and the filesystem cannot make one.
    ReflinkUnavailable,
    /// A failure reported by a worker, as text.
    CopyError(String),
}

impl XcpError {
    /// The description of the error, as text. An error that was made with a
    /// text of its own is described by that text.
    pub open spec fn spec_message(self) -> Seq<char> {
        match self {
            XcpError::Io { .. } => "Input/output error."@,
            XcpError::InvalidSource(text) => text@,
            XcpError::DestinationExists(_) => "Destination file exists and --no-clobber is set."@,
            XcpError::UnknownFileType(_) => "Unknown file type found."@,
            XcpError::UnsupportedOS(text) => text@,
            XcpError::ReflinkUnavailable => "Reflink is not available for this file."@,
            XcpError::CopyError(text) => text@,
        }
    }

    /// The description of the error, as text.
    pub fn message(&self) -> (text: String)
        ensures
            text@ == self.spec_message(),
    {
        match self {
            XcpError::Io { .. } => String::from_str("Input/output error."),
            XcpError::InvalidSource(text) => text.clone(),
            XcpError::DestinationExists(_) => String::from_str(
                "Destination file exists and --no-clobber is set.",
            ),
            XcpError::UnknownFileType(_) => String::from_str("Unknown file type found."),
            XcpError::UnsupportedOS(text) => text.clone(),
            XcpError::ReflinkUnavailable => String::from_str(
                "Reflink is not available for this file.",
            ),
            XcpError::CopyError(text) => text.clone(),
        }
    }
}

} // verus!

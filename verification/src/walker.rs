//! The tree walker's decisions: where an entry of the source tree lands in
//! the destination, and what is done with it.

use vstd::prelude::*;
use crate::errors::XcpError;
use crate::paths::{copy_name, copy_tail, leads, names, same_name, TreePath};

verus! {

/// The kinds of entry a tree can hold.
#[derive(Debug, Clone, Copy, PartialEq, Eq, Structural)]
pub enum FileType {
    File,
    Dir,
    Symlink,
    Socket,
    Fifo,
    Char,
    Block,
    Other,
}

/// A pending job: copy the regular file at `from` to `target`.
#[derive(Debug, Clone, PartialEq, Eq)]
pub struct CopyOp {
    pub from: TreePath,
    pub target: TreePath,
}

/// What the walker does with one entry.
#[derive(Debug, Clone, PartialEq, Eq)]
pub enum WalkAction {
    /// Create the directory `target` and those above it; no job is emitted.
    CreateDir { target: TreePath },
    /// Hand `op` to the dispatcher and add `grow` bytes to the expected total.
    Enqueue { op: CopyOp, grow: u64 },
    /// Read the link at `from` and create a link with the same text at
    /// `target`. The link is not followed.
    CopyLink { from: TreePath, target: TreePath },
    /// Replicate the socket, FIFO or device node at `from` as `target`.
    CopyNode { from: TreePath, target: TreePath },
}

/// The text of the error for a source path without a component.
pub open spec fn nameless_source_text() -> Seq<char> {
    "Failed to find source directory name."@
}

/// The last component of a source path: the name under which the source
/// appears in a destination directory. Fails with `InvalidSource` exactly
/// when the path has no component.
pub fn source_name(source: &TreePath) -> (r: Result<Vec<u8>, XcpError>)
    ensures
        source.len() > 0 ==> (r matches Ok(name) && name@ == names(source@).last()),
        source.len() == 0 ==> (r matches Err(XcpError::InvalidSource(text)) && text@
            == nameless_source_text()),
{
    if source.len() == 0 {
        Err(XcpError::InvalidSource(String::from_str("Failed to find source directory name.")))
    } else {
        Ok(copy_name(&source[source.len() - 1]))
    }
}

/// The root under which the entries of `source` land. Where the destination
/// exists and is a directory, the root is the destination joined with the
/// source's name; otherwise the root is the destination itself. Fails with
/// `InvalidSource` exactly when the source path has no component.
pub fn target_base(dest: &TreePath, source: &TreePath, dest_is_dir: bool) -> (r: Result<
    TreePath,
    XcpError,
>)
    ensures
        source.len() == 0 ==> (r matches Err(XcpError::InvalidSource(text)) && text@
            == nameless_source_text()),
        source.len() > 0 && dest_is_dir ==> (r matches Ok(base) && names(base@) == names(
            dest@,
        ).push(names(source@).last())),
        source.len() > 0 && !dest_is_dir ==> (r matches Ok(base) && names(base@) == names(dest@)),
{
    match source_name(source) {
        Err(e) => Err(e),
        Ok(name) => {
            let mut base = copy_tail(dest, 0);
            assert(names(dest@).skip(0) =~= names(dest@));
            if dest_is_dir {
                let ghost before = base@;
                base.push(name);
                assert(names(base@) =~= names(before).push(name@));
            }
            Ok(base)
        },
    }
}

/// The path of the entry `from` relative to the source root `source`: what
/// is left of `from` once the components of `source` are taken off its
/// front. `None` exactly when `source` does not lead `from`.
pub fn relative_to(from: &TreePath, source: &TreePath) -> (r: Option<TreePath>)
    ensures
        r is Some <==> leads(names(source@), names(from@)),
        r matches Some(rel) ==> names(rel@) == names(from@).skip(source@.len() as int),
{
    if source.len() > from.len() {
        return None;
    }
    let mut k: usize = 0;
    while k < source.len()
        invariant
            k <= source.len() <= from.len(),
            forall|i: int| 0 <= i < k ==> #[trigger] names(source@)[i] == names(from@)[i],
        decreases source.len() - k,
    {
        if !same_name(&source[k], &from[k]) {
            assert(names(source@)[k as int] != names(from@)[k as int]);
            return None;
        }
        k += 1;
    }
    Some(copy_tail(from, source.len()))
}

/// The target of an entry: the root joined with the entry's relative path.
/// The source root itself, whose relative path is empty, lands on the root.
pub fn entry_target(base: &TreePath, rel: &TreePath) -> (target: TreePath)
    ensures
        names(target@) == names(base@) + names(rel@),
{
    let mut target = copy_tail(base, 0);
    let mut tail = copy_tail(rel, 0);
    assert(names(base@).skip(0) =~= names(base@));
    assert(names(rel@).skip(0) =~= names(rel@));
    let ghost head = target@;
    let ghost rest = tail@;
    target.append(&mut tail);
    assert(names(target@) =~= names(head) + names(rest));
    target
}

/// The overwrite policy at one target: where overwriting is refused and the
/// target exists, the copy fails with `DestinationExists`; otherwise the
/// target is handed back to be written.
pub fn guard_target(target: TreePath, no_clobber: bool, target_exists: bool) -> (r: Result<
    TreePath,
    XcpError,
>)
    ensures
        r == if no_clobber && target_exists {
            Err::<TreePath, XcpError>(XcpError::DestinationExists(target))
        } else {
            Ok::<TreePath, XcpError>(target)
        },
{
    if no_clobber && target_exists {
        Err(XcpError::DestinationExists(target))
    } else {
        Ok(target)
    }
}

/// The walker's decision table.
pub open spec fn spec_entry_action(
    kind: FileType,
    from: TreePath,
    target: TreePath,
    len: u64,
    no_clobber: bool,
    target_exists: bool,
) -> Result<WalkAction, XcpError> {
    if no_clobber && target_exists {
        Err(XcpError::DestinationExists(target))
    } else {
        match kind {
            FileType::File => Ok(WalkAction::Enqueue { op: CopyOp { from, target }, grow: len }),
            FileType::Symlink => Ok(WalkAction::CopyLink { from, target }),
            FileType::Dir => Ok(WalkAction::CreateDir { target }),
            FileType::Socket | FileType::Fifo | FileType::Char | FileType::Block => Ok(
                WalkAction::CopyNode { from, target },
            ),
            FileType::Other => Err(XcpError::UnknownFileType(target)),
        }
    }
}

/// What the walker does with the entry `from` of type `kind` and length
/// `len`, whose target is `target`.
///
/// Where overwriting is refused and the target exists, the walk fails with
/// `DestinationExists`, whatever the entry's type. Otherwise a directory is
/// created, a regular file is enqueued and its length added to the expected
/// total, a symlink is copied as a link, a socket, FIFO or device node is
/// replicated, and an entry of any other type fails the walk with
/// `UnknownFileType`.
pub fn entry_action(
    kind: FileType,
    from: TreePath,
    target: TreePath,
    len: u64,
    no_clobber: bool,
    target_exists: bool,
) -> (r: Result<WalkAction, XcpError>)
    ensures
        r == spec_entry_action(kind, from, target, len, no_clobber, target_exists),
{
    let target = match guard_target(target, no_clobber, target_exists) {
        Ok(target) => target,
        Err(e) => {
            return Err(e);
        },
    };
    match kind {
        FileType::File => Ok(WalkAction::Enqueue { op: CopyOp { from, target }, grow: len }),
        FileType::Symlink => Ok(WalkAction::CopyLink { from, target }),
        FileType::Dir => Ok(WalkAction::CreateDir { target }),
        FileType::Socket | FileType::Fifo | FileType::Char | FileType::Block => Ok(
            WalkAction::CopyNode { from, target },
        ),
        FileType::Other => Err(XcpError::UnknownFileType(target)),
    }
}

/// A symlink is copied as a link and never followed: unless the overwrite
/// policy refuses its target, the walker's action for a symlink is to copy
/// the link itself, whatever the link points to, and no job is emitted for
/// its content.
pub proof fn lemma_links_are_not_followed(
    from: TreePath,
    target: TreePath,
    len: u64,
    no_clobber: bool,
    target_exists: bool,
)
    requires
        !(no_clobber && target_exists),
    ensures
        spec_entry_action(FileType::Symlink, from, target, len, no_clobber, target_exists) == Ok::<
            WalkAction,
            XcpError,
        >(WalkAction::CopyLink { from, target }),
{
}

/// A directory of the source tree is mirrored at the same relative path:
/// unless the overwrite policy refuses its target, the walker's action for a
/// directory that lies at `rel` under its source root is to create the
/// directory that lies at `rel` under the target root.
pub proof fn lemma_directories_are_mirrored(
    base: TreePath,
    rel: TreePath,
    from: TreePath,
    target: TreePath,
    len: u64,
    no_clobber: bool,
    target_exists: bool,
)
    requires
        names(target@) == names(base@) + names(rel@),
        !(no_clobber && target_exists),
    ensures
        spec_entry_action(FileType::Dir, from, target, len, no_clobber, target_exists) == Ok::<
            WalkAction,
            XcpError,
        >(WalkAction::CreateDir { target }),
        leads(names(base@), names(target@)),
        names(target@).skip(base@.len() as int) == names(rel@),
{
    lemma_target_mirrors(base@, rel@, target@);
}

/// Mirroring keeps relative paths: the target of an entry that lies at `rel`
/// under its source root lies at `rel` under the target root, so that
/// `relative_to` gives `rel` back.
pub proof fn lemma_target_mirrors(base: Seq<Vec<u8>>, rel: Seq<Vec<u8>>, target: Seq<Vec<u8>>)
    requires
        names(target) == names(base) + names(rel),
    ensures
        leads(names(base), names(target)),
        names(target).skip(base.len() as int) == names(rel),
{
    assert((names(base) + names(rel)).skip(base.len() as int) =~= names(rel));
}

} // verus!

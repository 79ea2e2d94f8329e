//! Values that a filesystem scan reports, and the decisions the scan makes
//! on what it reads: symlinks are never followed, and unreadable entries
//! are skipped and counted instead of aborting the scan.

use vstd::prelude::*;
use crate::model::{Node, NodeView, views};
use crate::order::{sort_by_size, sum_sizes};
use crate::path::{entry_name, path_file_name};

verus! {

/// Progress of a running scan.
#[derive(Debug, Clone, Copy, PartialEq, Eq, Structural)]
pub struct ScanProgress {
    pub scanned_entries: u64,
    pub errors: u64,
}

/// Result of a completed scan.
pub struct ScanResult {
    pub root: Node,
    pub errors: u64,
}

/// What the metadata of a directory entry says, as read without following
/// symlinks.
#[derive(Debug, Clone, Copy, PartialEq, Eq, Structural)]
pub enum EntryMeta {
    /// The metadata could not be read.
    Unreadable,
    Symlink,
    Dir,
    /// A file of the given length in bytes.
    File(u64),
}

/// What the scan does with a directory entry.
#[derive(Debug, Clone, Copy, PartialEq, Eq, Structural)]
pub enum EntryStep {
    /// Count an error and make no node.
    Error,
    /// Make no node (a symlink is not followed).
    Skip,
    /// Scan the directory below.
    Descend,
    /// Make a file node of the given size.
    Leaf(u64),
}

/// The scan's decision for one entry: an unreadable entry is an error, a
/// symlink is skipped, a directory is descended into, and a file becomes a
/// leaf of its length.
pub fn entry_step(meta: EntryMeta) -> (r: EntryStep)
    ensures
        meta is Unreadable ==> r is Error,
        meta is Symlink ==> r is Skip,
        meta is Dir ==> r is Descend,
        meta matches EntryMeta::File(n) ==> r == EntryStep::Leaf(n),
{
    match meta {
        EntryMeta::Unreadable => EntryStep::Error,
        EntryMeta::Symlink => EntryStep::Skip,
        EntryMeta::Dir => EntryStep::Descend,
        EntryMeta::File(n) => EntryStep::Leaf(n),
    }
}

impl EntryStep {
    /// Whether the entry counts as an error; every other entry counts as
    /// scanned.
    pub fn counts_as_error(&self) -> (r: bool)
        ensures
            r == (*self is Error),
    {
        match self {
            EntryStep::Error => true,
            _ => false,
        }
    }
}

/// The directory node a listing gives, with the errors it adds: a listing
/// that failed (`None`) counts one error and gives an empty directory;
/// otherwise the directory holds the scanned children.
pub fn dir_from_listing(path: String, listing: Option<Vec<Node>>) -> (r: (Node, u64))
    requires
        listing matches Some(c) ==> sum_sizes(views(c@)) <= u64::MAX,
    ensures
        listing is None ==> r.1 == 1 && r.0@ == (NodeView {
            name: entry_name(path@),
            path: path@,
            is_dir: true,
            size: 0,
            children: Seq::empty(),
        }),
        listing matches Some(c) ==> r.1 == 0 && r.0@ == (NodeView {
            name: entry_name(path@),
            path: path@,
            is_dir: true,
            size: sum_sizes(views(c@)) as u64,
            children: sort_by_size(views(c@)),
        }),
        path_file_name(path@) matches Some(n) ==> r.0@.name == n,
{
    match listing {
        None => {
            let empty: Vec<Node> = Vec::new();
            proof {
                assert(views(empty@) =~= Seq::<NodeView>::empty());
            }
            (Node::new_dir(path, empty), 1)
        },
        Some(children) => (Node::new_dir(path, children), 0),
    }
}

} // verus!

//! A snapshot model of a directory subtree: what the discovery pass reads of
//! the filesystem, handed in as plain data.
use crate::pathstr::valid_name;
use vstd::prelude::*;

verus! {

/// Outcome of trying to enumerate a directory's entries.
#[derive(Clone, Copy, PartialEq, Eq, Structural, Debug)]
pub enum ReadDirStatus {
    /// The directory's children were enumerated.
    Readable,
    /// Enumeration was refused for lack of permission.
    PermissionDenied,
    /// Enumeration failed for some other reason.
    Failed,
}

/// A snapshot of one directory: its entry name, whether it carries the
/// repository marker, whether its entries could be enumerated, and its
/// subdirectories.
pub struct DirNode {
    pub name: String,
    pub is_repo: bool,
    pub status: ReadDirStatus,
    pub children: Vec<DirNode>,
}

impl DirNode {
    /// A faithful snapshot: entry names are nonempty, free of the separator,
    /// and distinct among siblings, as a real directory guarantees.
    pub open spec fn wf(self) -> bool
        decreases self,
    {
        &&& (forall|i: int|
            0 <= i < self.children@.len() ==> valid_name(#[trigger] self.children@[i].name@))
        &&& (forall|i: int, j: int|
            0 <= i < j < self.children@.len() ==> self.children@[i].name@
                != self.children@[j].name@)
        &&& (forall|i: int| 0 <= i < self.children@.len() ==> (#[trigger] self.children@[i]).wf())
    }
}

} // verus!

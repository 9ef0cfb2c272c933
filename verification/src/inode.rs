//! A file as the layer above the file systems knows it.
use vstd::prelude::*;
use crate::evict::EvictRequest;
use crate::page_cache;
use crate::page_cache::InodePages;
use crate::types::FileKind;

verus! {

/// A file of one mount, with the pages of it that are held.
pub struct VfsInode {
    /// The mount the file lives on.
    pub mount_id: usize,
    /// The file's number there; 0 if it has none.
    pub ino: u64,
    pub kind: FileKind,
    pub pages: InodePages,
    /// Whether the file has lost its name while it was still in use.
    pub orphan: bool,
}

impl VfsInode {
    /// A file nobody has unlinked, with no page held.
    pub fn new(mount_id: usize, ino: u64, kind: FileKind) -> (r: VfsInode)
        ensures
            r.mount_id == mount_id,
            r.ino == ino,
            r.kind == kind,
            r.pages.wf(),
            r.pages@ == page_cache::no_pages(),
            !r.orphan,
    {
        VfsInode { mount_id, ino, kind, pages: InodePages::new(), orphan: false }
    }

    /// Notes that the file has lost its name.
    pub fn mark_orphan(&mut self)
        ensures
            *final(self) == (VfsInode { orphan: true, ..*old(self) }),
    {
        self.orphan = true;
    }

    /// Whether the file has lost its name.
    pub fn is_orphan(&self) -> (r: bool)
        ensures
            r == self.orphan,
    {
        self.orphan
    }

    /// What is to be freed once nobody uses the file any more: what it holds, if it has
    /// lost its name and has a number.
    pub fn on_release(&self) -> (r: Option<EvictRequest>)
        ensures
            r == (if self.orphan && self.ino != 0 {
                Some(EvictRequest { mount_id: self.mount_id, ino: self.ino })
            } else {
                None::<EvictRequest>
            }),
    {
        if !self.is_orphan() || self.ino == 0 {
            return None;
        }
        Some(EvictRequest { mount_id: self.mount_id, ino: self.ino })
    }
}

} // verus!

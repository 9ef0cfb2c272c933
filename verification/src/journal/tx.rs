//! The staging area of one logical transaction.
use vstd::prelude::*;
use crate::sorted::SortedSet;

verus! {

/// One logical transaction being put together: the metadata blocks it changed and
/// the blocks it freed, both by page index on the device. Finishing it merges it
/// into the journal's active transaction; aborting it discards it.
pub struct TxHandle {
    pub staged_blocks: SortedSet,
    pub staged_revokes: SortedSet,
    pub aborted: bool,
}

impl TxHandle {
    /// An empty transaction.
    pub fn new() -> (r: TxHandle)
        ensures
            r.staged_blocks@ == Set::<u64>::empty(),
            r.staged_revokes@ == Set::<u64>::empty(),
            !r.aborted,
    {
        TxHandle {
            staged_blocks: SortedSet::new(),
            staged_revokes: SortedSet::new(),
            aborted: false,
        }
    }

    /// Enrolls a metadata block. Enrolling a block twice is the same as once.
    pub fn enroll_block(&mut self, block: u64)
        ensures
            final(self).staged_blocks@ == old(self).staged_blocks@.insert(block),
            final(self).staged_revokes@ == old(self).staged_revokes@,
            final(self).aborted == old(self).aborted,
    {
        self.staged_blocks.insert(block);
    }

    /// Records that a block is being freed: any journal copy of it made up to now
    /// must not be replayed once this transaction commits.
    pub fn enroll_revoke(&mut self, block: u64)
        ensures
            final(self).staged_revokes@ == old(self).staged_revokes@.insert(block),
            final(self).staged_blocks@ == old(self).staged_blocks@,
            final(self).aborted == old(self).aborted,
    {
        self.staged_revokes.insert(block);
    }

    /// Marks the transaction as one to discard.
    pub fn abort(&mut self)
        ensures
            final(self).aborted,
            final(self).staged_blocks@ == old(self).staged_blocks@,
            final(self).staged_revokes@ == old(self).staged_revokes@,
    {
        self.aborted = true;
    }
}

} // verus!

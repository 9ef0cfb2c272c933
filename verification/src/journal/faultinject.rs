//! Holding checkpoints back, so that recovery can be tested.
//!
//! A clean shutdown leaves nothing to replay, and checkpoints are so prompt that a cut at
//! any other moment mostly finds the journal empty too. Pausing them keeps committed
//! transactions in the ring.
use vstd::prelude::*;
use crate::bytes::{copy_vec, sub_vec};
use crate::devfs::device::{DevFsDevice, DevFsError};
use crate::journal::{Journal, JournalView};
use crate::text;
use crate::text::string_from_utf8;
use crate::types::{MmapRegion, PollState};

verus! {

/// The device that pauses and resumes checkpoints: it takes `pause` and `resume`, and
/// shows which was last.
pub struct JournalCtl {
    pub paused: bool,
}

/// What the device shows.
pub open spec fn shown(paused: bool) -> Seq<u8> {
    if paused {
        vstd::utf8::encode_utf8("checkpoint: paused\n"@)
    } else {
        vstd::utf8::encode_utf8("checkpoint: running\n"@)
    }
}

/// Up to `count` bytes at `offset`.
pub open spec fn window(s: Seq<u8>, offset: int, count: int) -> Seq<u8> {
    if offset >= s.len() {
        Seq::empty()
    } else if offset + count > s.len() {
        s.skip(offset)
    } else {
        s.subrange(offset, offset + count)
    }
}

/// What a command leads to: whether checkpoints are paused, and the answer. Blank text is
/// no command, and no error.
pub open spec fn commanded(paused: bool, data: Seq<u8>) -> (bool, Result<usize, DevFsError>) {
    if !vstd::utf8::valid_utf8(data) {
        (paused, Err(DevFsError::Unsupported))
    } else {
        let cmd = text::trimmed(vstd::utf8::decode_utf8(data));
        if cmd.len() == 0 {
            (paused, Ok(data.len() as usize))
        } else if cmd == "pause"@ {
            (true, Ok(data.len() as usize))
        } else if cmd == "resume"@ {
            (false, Ok(data.len() as usize))
        } else {
            (paused, Err(DevFsError::Unsupported))
        }
    }
}

impl JournalCtl {
    /// Checkpoints run.
    pub fn new() -> (r: JournalCtl)
        ensures
            !r.paused,
    {
        JournalCtl { paused: false }
    }

    /// Whether checkpoints are held back.
    pub fn checkpoint_paused(&self) -> (r: bool)
        ensures
            r == self.paused,
    {
        self.paused
    }

    /// Has a journal hold its checkpoints back, or let them run, as the device was told.
    pub fn apply(&self, journal: &mut Journal)
        ensures
            final(journal).same_region(old(journal)),
            final(journal)@ == (JournalView { paused: self.paused, ..old(journal)@ }),
    {
        journal.pause_checkpoints(self.paused);
    }
}

impl DevFsDevice for JournalCtl {
    open spec fn device_inv(&self) -> bool {
        true
    }

    open spec fn shown_size(&self) -> u64 {
        0
    }

    /// What is shown of the state is read; nothing changes.
    open spec fn read_step(
        pre: &Self,
        offset: usize,
        count: usize,
        post: &Self,
        r: Result<Vec<u8>, DevFsError>,
    ) -> bool {
        &&& *post == *pre
        &&& r matches Ok(v)
        &&& v@ == window(shown(pre.paused), offset as int, count as int)
    }

    /// A write is a command.
    open spec fn write_step(
        pre: &Self,
        offset: usize,
        data: Seq<u8>,
        post: &Self,
        r: Result<usize, DevFsError>,
    ) -> bool {
        (post.paused, r) == commanded(pre.paused, data)
    }

    open spec fn ioctl_step(
        pre: &Self,
        request: u64,
        arg: u64,
        arg_len: usize,
        post: &Self,
        r: Result<u64, DevFsError>,
    ) -> bool {
        *post == *pre && r == Err::<u64, DevFsError>(DevFsError::Unsupported)
    }

    open spec fn poll_step(pre: &Self, post: &Self, r: Result<PollState, DevFsError>) -> bool {
        *post == *pre && r == Err::<PollState, DevFsError>(DevFsError::Unsupported)
    }

    open spec fn mmap_step(
        pre: &Self,
        offset: usize,
        length: usize,
        post: &Self,
        r: Result<MmapRegion, DevFsError>,
    ) -> bool {
        *post == *pre && r == Err::<MmapRegion, DevFsError>(DevFsError::Unsupported)
    }

    fn read(&mut self, offset: usize, count: usize) -> (r: Result<Vec<u8>, DevFsError>) {
        let state: &[u8] = if self.paused {
            "checkpoint: paused\n".as_bytes()
        } else {
            "checkpoint: running\n".as_bytes()
        };
        let start: usize = if offset < state.len() {
            offset
        } else {
            state.len()
        };
        let end: usize = if count < state.len() - start {
            start + count
        } else {
            state.len()
        };
        let v = sub_vec(state, start, end);
        assert(v@ =~= window(shown(self.paused), offset as int, count as int));
        Ok(v)
    }

    fn write(&mut self, offset: usize, data: &[u8]) -> (r: Result<usize, DevFsError>) {
        let s = match string_from_utf8(copy_vec(data)) {
            Some(s) => s,
            None => {
                return Err(DevFsError::Unsupported);
            },
        };
        let cmd = text::trim(s.as_str());
        if cmd.as_str().unicode_len() == 0 {
            return Ok(data.len());
        }
        if cmd == String::from_str("pause") {
            self.paused = true;
        } else if cmd == String::from_str("resume") {
            self.paused = false;
        } else {
            return Err(DevFsError::Unsupported);
        }
        Ok(data.len())
    }

    fn ioctl(&mut self, request: u64, arg: u64, arg_len: usize) -> (r: Result<u64, DevFsError>) {
        Err(DevFsError::Unsupported)
    }

    fn poll(&mut self) -> (r: Result<PollState, DevFsError>) {
        Err(DevFsError::Unsupported)
    }

    fn mmap(&mut self, offset: usize, length: usize) -> (r: Result<MmapRegion, DevFsError>) {
        Err(DevFsError::Unsupported)
    }

    fn size(&self) -> (r: u64) {
        0
    }
}

} // verus!

//! Raw block devices as files, one for each device.
//!
//! All access goes through the device's cache, so what is read here is what a file
//! system mounted from the device reads.
use vstd::prelude::*;
use crate::block_device;
use crate::block_device::BlockDevice;
use crate::error::Error;
use crate::journal::CheckpointTracker;
use crate::gpt;
use crate::gpt::{Partition, PartitionView};
use crate::manager;
use crate::manager::{scan_device, FsManager, FsRequest, FsStep, ManagerState};
use crate::path;
use crate::path::Path;
use super::device::{DevFsDevice, DevFsError};
use super::registry;
use super::registry::{register_device, DevFs, DevState};
use crate::types::{MmapRegion, PollState};

verus! {

/// Writes every cached page of the device out. The argument is ignored.
pub const BLOCK_IOCTL_FLUSH: u64 = 0x424B_0001;

/// The capacity in sectors of 512 bytes.
pub const BLOCK_IOCTL_SECTOR_COUNT: u64 = 0x424B_0002;

/// Reads the partition table again: what it holds replaces what was known of the device, and is
/// counted. Refused while the device backs a mounted file system.
pub const BLOCK_IOCTL_RESCAN: u64 = 0x424B_0003;

/// 1 while the device backs a mounted file system, else 0.
pub const BLOCK_IOCTL_IS_MOUNTED: u64 = 0x424B_0004;

/// A block device behind a file.
pub struct BlockDevNode {
    pub device: BlockDevice,
    /// Whether a mounted file system is kept on the device.
    pub mounted: bool,
    /// Whether the device is for optical media.
    pub atapi: bool,
    /// What the last rescan found, until the manager of partitions takes it over.
    pub found: Option<Vec<Partition>>,
}

/// What a rescan left for the manager of partitions.
pub open spec fn found_views(n: BlockDevNode) -> Option<Seq<PartitionView>> {
    match n.found {
        Some(v) => Some(gpt::partition_views(v@)),
        None => None,
    }
}

/// The partitions of the device as its pages show them.
pub open spec fn on_disk(n: BlockDevNode) -> Seq<PartitionView> {
    manager::scanned(block_device::flat(n.device@), n.device.device_id, n.atapi)
}

/// Whether an access stays within a device of `capacity` bytes. An empty access and an
/// empty device are out of range.
pub open spec fn in_range(capacity: int, offset: int, len: int) -> bool {
    len > 0 && capacity > 0 && offset + len <= capacity
}

/// How many bytes a device has.
pub open spec fn capacity(n: BlockDevNode) -> int {
    n.device@.len() as int * 4096
}

/// Whether two states of a node are of the same device, mounted and of a kind alike.
pub open spec fn same_node(a: BlockDevNode, b: BlockDevNode) -> bool {
    &&& b.device.device_id == a.device.device_id
    &&& b.mounted == a.mounted
    &&& b.atapi == a.atapi
}

/// A scan's outcome as the answer to a request.
pub open spec fn rescan_answer(r: Result<usize, Error>) -> Result<u64, DevFsError> {
    match r {
        Ok(n) => Ok(n as u64),
        Err(Error::Busy) => Err(DevFsError::Busy),
        Err(_) => Err(DevFsError::IoError),
    }
}

/// Turns a scan's outcome into the answer to a request.
pub fn answer_rescan(r: Result<usize, Error>) -> (a: Result<u64, DevFsError>)
    ensures
        a == rescan_answer(r),
{
    match r {
        Ok(n) => Ok(n as u64),
        Err(e) => if e == Error::Busy {
            Err(DevFsError::Busy)
        } else {
            Err(DevFsError::IoError)
        },
    }
}

/// What a request is answered.
pub open spec fn answered(n: BlockDevNode, request: u64) -> Result<u64, DevFsError> {
    if request == BLOCK_IOCTL_FLUSH {
        Ok(0)
    } else if request == BLOCK_IOCTL_SECTOR_COUNT {
        Ok((n.device@.len() * 8) as u64)
    } else if request == BLOCK_IOCTL_IS_MOUNTED {
        Ok(
            if n.mounted {
                1
            } else {
                0
            },
        )
    } else if request == BLOCK_IOCTL_RESCAN {
        if n.mounted {
            Err(DevFsError::Busy)
        } else {
            Ok(on_disk(n).len() as u64)
        }
    } else {
        Err(DevFsError::Unsupported)
    }
}

impl BlockDevNode {
    /// The capacity in sectors.
    pub fn sectors(&self) -> (r: u64)
        requires
            self.device.wf(),
        ensures
            r == self.device@.len() * 8,
    {
        proof {
            self.device.lemma_wf();
        }
        self.device.page_count() * 8
    }

    /// Refuses what runs off the end of the device. Accesses are byte by byte: nothing
    /// is rounded outward to sectors.
    pub fn check_range(&self, offset: usize, len: usize) -> (r: Result<(), DevFsError>)
        requires
            self.device.wf(),
        ensures
            r == (if in_range(capacity(*self), offset as int, len as int) {
                Ok::<(), DevFsError>(())
            } else {
                Err::<(), DevFsError>(DevFsError::InvalidPath)
            }),
    {
        proof {
            self.device.lemma_wf();
        }
        if len == 0 {
            return Err(DevFsError::InvalidPath);
        }
        let end: u64 = match (offset as u64).checked_add(len as u64) {
            Some(e) => e,
            None => {
                return Err(DevFsError::InvalidPath);
            },
        };
        let capacity: u64 = self.sectors() * 512;
        if capacity == 0 || end > capacity {
            return Err(DevFsError::InvalidPath);
        }
        Ok(())
    }
}

impl DevFsDevice for BlockDevNode {
    open spec fn device_inv(&self) -> bool {
        self.device.wf()
    }

    open spec fn shown_size(&self) -> u64 {
        capacity(*self) as u64
    }

    /// What lies within the device is read; nothing changes.
    open spec fn read_step(
        pre: &Self,
        offset: usize,
        count: usize,
        post: &Self,
        r: Result<Vec<u8>, DevFsError>,
    ) -> bool {
        &&& post.device@ == pre.device@
        &&& post.device.persisted() == pre.device.persisted()
        &&& post.device.dirty() == pre.device.dirty()
        &&& same_node(*pre, *post)
        &&& post.found == pre.found
        &&& match r {
            Ok(v) => in_range(capacity(*pre), offset as int, count as int) && v@
                == block_device::flat(pre.device@).subrange(offset as int, offset + count),
            Err(e) => e == DevFsError::InvalidPath && !in_range(
                capacity(*pre),
                offset as int,
                count as int,
            ),
        }
    }

    /// What lies within the device is written, unless a mounted file system is kept on it.
    open spec fn write_step(
        pre: &Self,
        offset: usize,
        data: Seq<u8>,
        post: &Self,
        r: Result<usize, DevFsError>,
    ) -> bool {
        if !in_range(capacity(*pre), offset as int, data.len() as int) {
            r == Err::<usize, DevFsError>(DevFsError::InvalidPath) && *post == *pre
        } else if pre.mounted {
            r == Err::<usize, DevFsError>(DevFsError::Busy) && *post == *pre
        } else {
            &&& r == Ok::<usize, DevFsError>(data.len() as usize)
            &&& block_device::flat(post.device@) == crate::bytes::splice(
                block_device::flat(pre.device@),
                offset as int,
                data,
            )
            &&& post.device@.len() == pre.device@.len()
            &&& same_node(*pre, *post)
            &&& post.found == pre.found
        }
    }

    /// The answer is that of [`answered`]. A flush leaves nothing dirty, and a rescan leaves what
    /// it found for the manager of partitions.
    open spec fn ioctl_step(
        pre: &Self,
        request: u64,
        arg: u64,
        arg_len: usize,
        post: &Self,
        r: Result<u64, DevFsError>,
    ) -> bool {
        &&& r == answered(*pre, request)
        &&& post.device@ == pre.device@
        &&& same_node(*pre, *post)
        &&& if request == BLOCK_IOCTL_FLUSH || (request == BLOCK_IOCTL_RESCAN && !pre.mounted) {
            post.device.persisted() == pre.device@ && post.device.dirty() == Set::<u64>::empty()
        } else {
            post.device == pre.device
        }
        &&& if request == BLOCK_IOCTL_RESCAN && !pre.mounted {
            found_views(*post) == Some(on_disk(*pre))
        } else {
            post.found == pre.found
        }
    }

    open spec fn poll_step(pre: &Self, post: &Self, r: Result<PollState, DevFsError>) -> bool {
        *post == *pre && r == Err::<PollState, DevFsError>(DevFsError::Unsupported)
    }

    open spec fn mmap_step(
        pre: &Self,
        offset: usize,
        length: usize,
        post: &Self,
        r: Result<MmapRegion, DevFsError>,
    ) -> bool {
        *post == *pre && r == Err::<MmapRegion, DevFsError>(DevFsError::Unsupported)
    }

    fn read(&mut self, offset: usize, count: usize) -> (r: Result<Vec<u8>, DevFsError>) {
        match self.check_range(offset, count) {
            Ok(_) => {},
            Err(e) => {
                return Err(e);
            },
        }
        match self.device.read_bytes(offset as u64, count) {
            Ok(v) => Ok(v),
            Err(_) => Err(DevFsError::IoError),
        }
    }

    /// Writes to the device, unless a mounted file system is kept on it.
    fn write(&mut self, offset: usize, data: &[u8]) -> (r: Result<usize, DevFsError>) {
        match self.check_range(offset, data.len()) {
            Ok(_) => {},
            Err(e) => {
                return Err(e);
            },
        }
        if self.mounted {
            return Err(DevFsError::Busy);
        }
        proof {
            assert(data@.take(data@.len() as int) =~= data@);
        }
        let mut tracker = CheckpointTracker::new(0);
        match self.device.write_bytes(&mut tracker, offset as u64, data) {
            Ok(_) => Ok(data.len()),
            Err(_) => Err(DevFsError::IoError),
        }
    }

    fn ioctl(&mut self, request: u64, arg: u64, arg_len: usize) -> (r: Result<u64, DevFsError>) {
        if request == BLOCK_IOCTL_FLUSH {
            let mut tracker = CheckpointTracker::new(0);
            let ghost d0 = self.device;
            self.device.flush(&mut tracker);
            proof {
                d0.lemma_wf();
                self.device.lemma_wf();
                assert(self.device.dirty() =~= Set::<u64>::empty());
                assert(self.device.persisted() =~= d0@);
            }
            Ok(0)
        } else if request == BLOCK_IOCTL_SECTOR_COUNT {
            Ok(self.sectors())
        } else if request == BLOCK_IOCTL_IS_MOUNTED {
            Ok(
                if self.mounted {
                    1
                } else {
                    0
                },
            )
        } else if request == BLOCK_IOCTL_RESCAN {
            let outcome: Result<usize, Error> = if self.mounted {
                Err(Error::Busy)
            } else {
                let mut tracker = CheckpointTracker::new(0);
                self.device.invalidate(&mut tracker);
                let found = scan_device(&mut self.device, self.atapi);
                let n: usize = found.len();
                self.found = Some(found);
                Ok(n)
            };
            answer_rescan(outcome)
        } else {
            Err(DevFsError::Unsupported)
        }
    }

    fn poll(&mut self) -> (r: Result<PollState, DevFsError>) {
        Err(DevFsError::Unsupported)
    }

    fn mmap(&mut self, offset: usize, length: usize) -> (r: Result<MmapRegion, DevFsError>) {
        Err(DevFsError::Unsupported)
    }

    fn size(&self) -> (r: u64) {
        proof {
            self.device.lemma_wf();
        }
        self.sectors() * 512
    }
}

// ---- Rescans ------------------------------------------------------------------------------

/// What the manager knows once it has taken over what a rescan of a device found: of other
/// devices what it knew, of this one what was found. Nothing changes while the device backs a
/// mount.
pub open spec fn taken_over(
    st: ManagerState,
    device_id: u64,
    found: Seq<PartitionView>,
) -> ManagerState {
    if manager::backs_mount(st, device_id) {
        st
    } else {
        ManagerState {
            partitions: manager::elsewhere(
                st.partitions,
                device_id,
                st.partitions.len() as int,
            ) + found,
            ..st
        }
    }
}

/// Hands what a rescan found over to the manager of partitions; says whether there was
/// anything.
pub fn hand_over(node: &mut BlockDevNode, known: &mut FsManager) -> (r: bool)
    ensures
        r == (old(node).found is Some),
        final(node).found is None,
        final(node).device == old(node).device,
        same_node(*old(node), *final(node)),
        final(known)@ == (match found_views(*old(node)) {
            Some(v) => taken_over(old(known)@, old(node).device.device_id, v),
            None => old(known)@,
        }),
{
    match node.found.take() {
        None => false,
        Some(found) => {
            let device_id: u64 = node.device.device_id;
            match known.step(FsRequest::RescanPartitions { device_id }) {
                FsStep::Scan(_) => {
                    let _ = known.scanned(found);
                },
                _ => {},
            }
            true
        },
    }
}

/// What was written to a device is read back from it.
pub proof fn written_is_read_back(
    before: BlockDevNode,
    offset: usize,
    data: Seq<u8>,
    mid: BlockDevNode,
    after: BlockDevNode,
    w: Result<usize, DevFsError>,
    r: Result<Vec<u8>, DevFsError>,
)
    requires
        BlockDevNode::write_step(&before, offset, data, &mid, w),
        w is Ok,
        BlockDevNode::read_step(&mid, offset, data.len() as usize, &after, r),
        data.len() <= usize::MAX,
    ensures
        w == Ok::<usize, DevFsError>(data.len() as usize),
        r matches Ok(v) && v@ == data,
{
    assert(block_device::flat(mid.device@).subrange(offset as int, offset + data.len()) =~= data);
}

/// Once a rescan has been handed over, the manager knows of the device what its pages show, and of
/// other devices what it knew, unless the device backs a mount.
pub proof fn rescan_replaces(
    before: BlockDevNode,
    after: BlockDevNode,
    r: Result<u64, DevFsError>,
    st: ManagerState,
)
    requires
        BlockDevNode::ioctl_step(&before, BLOCK_IOCTL_RESCAN, 0, 0, &after, r),
        r is Ok,
        !manager::backs_mount(st, before.device.device_id),
    ensures
        found_views(after) is Some,
        taken_over(st, after.device.device_id, found_views(after)->Some_0).partitions
            == manager::elsewhere(
            st.partitions,
            before.device.device_id,
            st.partitions.len() as int,
        ) + on_disk(before),
{
}

// ---- Names ----------------------------------------------------------------------------

/// The position of a device in the series of disks. Ids from 1000 on come after the
/// `ports` devices that have ids below.
pub open spec fn disk_position(device_id: u64, ports: u64) -> int {
    if device_id >= 1000 {
        ports + device_id - 1000
    } else {
        device_id as int
    }
}

/// The name of a block device: `ram0` for the one in memory, else `sd` and a letter, as
/// long as there are letters.
pub open spec fn name_of(device_id: u64, ram_id: u64, ports: u64) -> Option<Seq<char>> {
    if device_id == ram_id {
        Some("ram0"@)
    } else if disk_position(device_id, ports) >= 26 {
        None
    } else {
        Some("sd"@.push(letter(disk_position(device_id, ports))))
    }
}

/// The small letters.
pub open spec fn letters() -> Seq<char> {
    "abcdefghijklmnopqrstuvwxyz"@
}

/// The letter at a position.
pub open spec fn letter(i: int) -> char {
    letters()[i]
}

/// The name of a block device.
pub fn device_name(device_id: u64, ram_id: u64, ports: u64) -> (r: Option<String>)
    ensures
        match r {
            Some(s) => name_of(device_id, ram_id, ports) == Some(s@),
            None => name_of(device_id, ram_id, ports) is None,
        },
{
    if device_id == ram_id {
        return Some(String::from_str("ram0"));
    }
    let position: u64 = if device_id >= 1000 {
        match ports.checked_add(device_id - 1000) {
            Some(p) => p,
            None => {
                return None;
            },
        }
    } else {
        device_id
    };
    if position >= 26 {
        return None;
    }
    let mut s = String::from_str("sd");
    proof {
        reveal_strlit("abcdefghijklmnopqrstuvwxyz");
    }
    let c: char = "abcdefghijklmnopqrstuvwxyz".get_char(position as usize);
    s.push(c);
    Some(s)
}

/// The registry with every device of `ids` from `i` on registered under its name, where
/// it has one and the name is free.
pub open spec fn all_registered<D>(
    st: DevState<D>,
    ids: Seq<u64>,
    devices: Seq<D>,
    ram_id: u64,
    ports: u64,
    i: int,
) -> DevState<D>
    decreases ids.len() - i,
{
    if i >= ids.len() {
        st
    } else {
        match name_of(ids[i], ram_id, ports) {
            None => all_registered(st, ids, devices, ram_id, ports, i + 1),
            Some(name) => all_registered(
                registry::registered(st, path::normalized(seq![name]), devices[i]).0,
                ids,
                devices,
                ram_id,
                ports,
                i + 1,
            ),
        }
    }
}

/// Registers every device that is not registered yet.
pub fn register_all<D: DevFsDevice>(
    fs: &mut DevFs<D>,
    ids: &Vec<u64>,
    devices: Vec<D>,
    ram_id: u64,
    ports: u64,
)
    requires
        old(fs).wf(),
        devices@.len() == ids@.len(),
        forall|i: int| 0 <= i < devices@.len() ==> (#[trigger] devices@[i]).device_inv(),
    ensures
        final(fs).wf(),
        final(fs)@ == all_registered(old(fs)@, ids@, devices@, ram_id, ports, 0),
{
    let mut rest = devices;
    let ghost all = devices@;
    let ghost st = fs@;
    let mut i: usize = 0;
    assert(rest@ =~= all.skip(0));
    while i < ids.len()
        invariant
            i <= ids@.len(),
            all.len() == ids@.len(),
            rest@ == all.skip(i as int),
            fs.wf(),
            forall|k: int| 0 <= k < all.len() ==> (#[trigger] all[k]).device_inv(),
            all_registered(st, ids@, all, ram_id, ports, 0) == all_registered(
                fs@,
                ids@,
                all,
                ram_id,
                ports,
                i as int,
            ),
        decreases ids@.len() - i,
    {
        let d = rest.remove(0);
        assert(d == all[i as int]);
        assert(rest@ =~= all.skip(i + 1));
        match device_name(ids[i], ram_id, ports) {
            Some(name) => {
                let p = Path::from_components(vec![name]);
                assert(p@ =~= seq![name@]);
                let _ = register_device(fs, &p, d);
            },
            None => {},
        }
        i = i + 1;
    }
}

} // verus!

//! What is partitioned and what is mounted: the requests for it and their answers.
use vstd::prelude::*;
use crate::block_device;
use crate::block_device::BlockDevice;
use crate::error::Error;
use crate::gpt;
use crate::gpt::{parse_gpt, FilesystemType, Partition, PartitionView};
use crate::mbr;
use crate::mbr::parse_mbr;
use crate::path;
use crate::path::Path;

verus! {

/// A mounted file system. The device and the partition mean nothing for one that is not
/// kept on a device.
pub struct MountInfo {
    pub mount_point: Path,
    pub device_id: usize,
    pub partition_index: usize,
    pub filesystem: FilesystemType,
}

/// A mount seen mathematically.
#[verifier::ext_equal]
pub struct MountView {
    pub mount_point: Seq<Seq<char>>,
    pub device_id: usize,
    pub partition_index: usize,
    pub filesystem: FilesystemType,
}

impl View for MountInfo {
    type V = MountView;

    open spec fn view(&self) -> MountView {
        MountView {
            mount_point: self.mount_point@,
            device_id: self.device_id,
            partition_index: self.partition_index,
            filesystem: self.filesystem,
        }
    }
}

/// Mounts seen through their views.
pub open spec fn mount_views(v: Seq<MountInfo>) -> Seq<MountView> {
    v.map_values(|m: MountInfo| m@)
}

/// What can be asked for.
#[allow(inconsistent_fields)]
pub enum FsRequest {
    ListPartitions,
    Mount {
        device_id: usize,
        partition_index: usize,
        mount_point: Path,
        fstype: FilesystemType,
    },
    Unmount { mount_point: Path },
    /// Makes a partition known, say of a device that appeared after the start.
    RegisterPartition { partition: Partition },
    /// Reads a device's partition table again.
    RescanPartitions { device_id: u64 },
}

/// What is answered.
pub enum FsResponse {
    Partitions(Vec<Partition>),
    Done(Result<(), Error>),
    Count(Result<usize, Error>),
}

/// What an answer says.
pub enum ResponseView {
    Partitions(Seq<PartitionView>),
    Done(Result<(), Error>),
    Count(Result<usize, Error>),
}

impl View for FsResponse {
    type V = ResponseView;

    open spec fn view(&self) -> ResponseView {
        match *self {
            FsResponse::Partitions(v) => ResponseView::Partitions(gpt::partition_views(v@)),
            FsResponse::Done(r) => ResponseView::Done(r),
            FsResponse::Count(r) => ResponseView::Count(r),
        }
    }
}

/// The file system that is to be opened for a mount.
#[derive(Clone, Copy, PartialEq, Eq, Structural)]
pub enum Source {
    /// A FAT file system in the partition at that position.
    Fat(usize),
    /// An EFS in the partition at that position.
    Efs(usize),
    Memfs,
    Devfs,
    Procfs,
}

/// A mount that only wants its file system opened.
pub struct MountPlan {
    pub source: Source,
    pub mount: MountInfo,
}

/// What is to be done about a request.
pub enum FsStep {
    /// It is settled.
    Reply(FsResponse),
    /// A device is to be scanned and the outcome handed to [`FsManager::scanned`].
    Scan(u64),
    /// A file system is to be opened and the outcome handed to [`FsManager::opened`].
    Open(MountPlan),
}

/// What a step says.
pub enum StepView {
    Reply(ResponseView),
    Scan(u64),
    Open(Source, MountView),
}

impl View for FsStep {
    type V = StepView;

    open spec fn view(&self) -> StepView {
        match *self {
            FsStep::Reply(r) => StepView::Reply(r@),
            FsStep::Scan(d) => StepView::Scan(d),
            FsStep::Open(p) => StepView::Open(p.source, p.mount@),
        }
    }
}

/// What is known of partitions and mounts.
pub struct FsManager {
    pub partitions: Vec<Partition>,
    pub mounts: Vec<MountInfo>,
}

/// What is known, seen mathematically.
#[verifier::ext_equal]
pub struct ManagerState {
    pub partitions: Seq<PartitionView>,
    pub mounts: Seq<MountView>,
}

impl View for FsManager {
    type V = ManagerState;

    open spec fn view(&self) -> ManagerState {
        ManagerState {
            partitions: gpt::partition_views(self.partitions@),
            mounts: mount_views(self.mounts@),
        }
    }
}

// ---- What the requests do -------------------------------------------------------------

/// The partitions of a device: those of its GUID partition table, else those of its
/// master boot record, else none. A device for optical media has none.
pub open spec fn scanned(disk: Seq<u8>, device_id: u64, atapi: bool) -> Seq<PartitionView> {
    if atapi {
        Seq::empty()
    } else {
        match gpt::gpt_partitions(disk, device_id) {
            Ok(v) => v,
            Err(_) => match mbr::mbr_partitions(disk, device_id) {
                Ok(v) => v,
                Err(_) => Seq::empty(),
            },
        }
    }
}

/// Whether a mount is kept on the device.
pub open spec fn mounted_on(m: MountView, device_id: u64) -> bool {
    m.device_id == device_id && m.filesystem.on_device()
}

/// Whether some mount is kept on the device.
pub open spec fn backs_mount(st: ManagerState, device_id: u64) -> bool {
    exists|i: int| 0 <= i < st.mounts.len() && mounted_on(#[trigger] st.mounts[i], device_id)
}

/// Whether two partitions are the same one: of the same device, at the same position in
/// its table.
pub open spec fn same_partition(a: PartitionView, b: PartitionView) -> bool {
    a.device_id == b.device_id && a.index == b.index
}

/// Whether a partition is known.
pub open spec fn known(st: ManagerState, p: PartitionView) -> bool {
    exists|i: int| 0 <= i < st.partitions.len() && same_partition(#[trigger] st.partitions[i], p)
}

/// The partitions of other devices among the first `n`.
pub open spec fn elsewhere(ps: Seq<PartitionView>, device_id: u64, n: int) -> Seq<PartitionView>
    decreases n,
{
    if n <= 0 {
        Seq::empty()
    } else if ps[n - 1].device_id != device_id {
        elsewhere(ps, device_id, n - 1).push(ps[n - 1])
    } else {
        elsewhere(ps, device_id, n - 1)
    }
}

/// Where the mount at a path stands, from `i` on.
pub open spec fn mount_at(ms: Seq<MountView>, p: Seq<Seq<char>>, i: int) -> Option<int>
    decreases ms.len() - i,
{
    if i >= ms.len() {
        None
    } else if ms[i].mount_point == p {
        Some(i)
    } else {
        mount_at(ms, p, i + 1)
    }
}

/// Where the partition that can be mounted stands, from `i` on.
pub open spec fn mountable_at(
    ps: Seq<PartitionView>,
    device_id: int,
    index: int,
    i: int,
) -> Option<int>
    decreases ps.len() - i,
{
    if i >= ps.len() {
        None
    } else if ps[i].device_id == device_id && ps[i].index == index && ps[i].filesystem is Some {
        Some(i)
    } else {
        mountable_at(ps, device_id, index, i + 1)
    }
}

/// The plan for a mount. A mount point can be used once; what is kept on a device needs
/// a partition whose file system was recognised.
pub open spec fn planned(
    st: ManagerState,
    device_id: usize,
    index: usize,
    p: Seq<Seq<char>>,
    t: FilesystemType,
) -> Result<(Source, MountView), Error> {
    let at = mountable_at(st.partitions, device_id as int, index as int, 0);
    let on_disk = MountView {
        mount_point: p,
        device_id,
        partition_index: index,
        filesystem: t,
    };
    let in_memory = MountView {
        mount_point: p,
        device_id: 0,
        partition_index: 0,
        filesystem: t,
    };
    if mount_at(st.mounts, p, 0) is Some {
        Err(Error::IoError)
    } else {
        match t {
            FilesystemType::Fat12 | FilesystemType::Fat16 | FilesystemType::Fat32 => match at {
                Some(i) => Ok((Source::Fat(i as usize), on_disk)),
                None => Err(Error::IoError),
            },
            FilesystemType::Efs => match at {
                Some(i) => Ok((Source::Efs(i as usize), on_disk)),
                None => Err(Error::IoError),
            },
            FilesystemType::Memfs => Ok((Source::Memfs, in_memory)),
            FilesystemType::Devfs => Ok((Source::Devfs, in_memory)),
            FilesystemType::Procfs => Ok((Source::Procfs, in_memory)),
            FilesystemType::Unknown | FilesystemType::Iso9660 | FilesystemType::Ntfs => Err(
                Error::IoError,
            ),
        }
    }
}

/// The state with a partition made known, once.
pub open spec fn with_partition(st: ManagerState, p: PartitionView) -> ManagerState {
    if known(st, p) {
        st
    } else {
        ManagerState { partitions: st.partitions.push(p), ..st }
    }
}

/// A mount taken away.
pub open spec fn unmounted(st: ManagerState, p: Seq<Seq<char>>) -> (
    ManagerState,
    Result<(), Error>,
) {
    match mount_at(st.mounts, p, 0) {
        Some(i) => (ManagerState { mounts: st.mounts.remove(i), ..st }, Ok(())),
        None => (st, Err(Error::IoError)),
    }
}

/// What a request leads to.
pub open spec fn stepped(st: ManagerState, req: FsRequest) -> (ManagerState, StepView) {
    match req {
        FsRequest::ListPartitions => (
            st,
            StepView::Reply(ResponseView::Partitions(st.partitions)),
        ),
        FsRequest::RegisterPartition { partition } => (
            with_partition(st, partition@),
            StepView::Reply(ResponseView::Done(Ok(()))),
        ),
        FsRequest::RescanPartitions { device_id } => if backs_mount(st, device_id) {
            (st, StepView::Reply(ResponseView::Count(Err(Error::Busy))))
        } else {
            (
                ManagerState {
                    partitions: elsewhere(
                        st.partitions,
                        device_id,
                        st.partitions.len() as int,
                    ),
                    ..st
                },
                StepView::Scan(device_id),
            )
        },
        FsRequest::Mount { device_id, partition_index, mount_point, fstype } => match planned(
            st,
            device_id,
            partition_index,
            mount_point@,
            fstype,
        ) {
            Err(e) => (st, StepView::Reply(ResponseView::Done(Err(e)))),
            Ok((source, mount)) => (st, StepView::Open(source, mount)),
        },
        FsRequest::Unmount { mount_point } => {
            let (s, r) = unmounted(st, mount_point@);
            (s, StepView::Reply(ResponseView::Done(r)))
        },
    }
}

// ---- Laws -----------------------------------------------------------------------------

proof fn lemma_mount_at(ms: Seq<MountView>, p: Seq<Seq<char>>, i: int)
    requires
        i >= 0,
    ensures
        mount_at(ms, p, i) is None <==> (forall|j: int|
            i <= j < ms.len() ==> (#[trigger] ms[j]).mount_point != p),
        mount_at(ms, p, i) matches Some(k) ==> i <= k < ms.len() && ms[k].mount_point == p,
    decreases ms.len() - i,
{
    if i < ms.len() {
        lemma_mount_at(ms, p, i + 1);
        assert(ms[i].mount_point == ms[i].mount_point);
    }
}

/// Whether no two mounts share a mount point.
pub open spec fn apart(st: ManagerState) -> bool {
    forall|i: int, j: int|
        0 <= i < j < st.mounts.len() ==> (#[trigger] st.mounts[i]).mount_point != (
        #[trigger] st.mounts[j]).mount_point
}

/// A planned mount keeps the mount points apart, and unmounting it leads back.
pub proof fn mount_then_unmount(
    st: ManagerState,
    device_id: usize,
    index: usize,
    p: Seq<Seq<char>>,
    t: FilesystemType,
)
    requires
        apart(st),
        planned(st, device_id, index, p, t) is Ok,
    ensures
        ({
            let m = planned(st, device_id, index, p, t)->Ok_0.1;
            let s = ManagerState { mounts: st.mounts.push(m), ..st };
            &&& apart(s)
            &&& planned(s, device_id, index, p, t) == Err::<(Source, MountView), Error>(
                Error::IoError,
            )
            &&& unmounted(s, p) == (st, Ok::<(), Error>(()))
        }),
{
    let m = planned(st, device_id, index, p, t)->Ok_0.1;
    let s = ManagerState { mounts: st.mounts.push(m), ..st };
    lemma_mount_at(st.mounts, p, 0);
    lemma_mount_at(s.mounts, p, 0);
    let n = st.mounts.len() as int;
    assert(s.mounts[n].mount_point == p);
    let k = mount_at(s.mounts, p, 0)->Some_0;
    assert(k == n) by {
        if k < n {
            assert(st.mounts[k].mount_point == s.mounts[k].mount_point);
        }
    }
    assert(s.mounts.remove(n) =~= st.mounts);
}

proof fn lemma_elsewhere(ps: Seq<PartitionView>, d: u64, n: int)
    requires
        0 <= n <= ps.len(),
    ensures
        forall|i: int|
            0 <= i < elsewhere(ps, d, n).len() ==> (#[trigger] elsewhere(ps, d, n)[i]).device_id
                != d,
        forall|i: int|
            0 <= i < n && (#[trigger] ps[i]).device_id != d ==> elsewhere(ps, d, n).contains(ps[i]),
    decreases n,
{
    if n > 0 {
        lemma_elsewhere(ps, d, n - 1);
        let a = elsewhere(ps, d, n - 1);
        let b = elsewhere(ps, d, n);
        assert forall|i: int| 0 <= i < b.len() implies (#[trigger] b[i]).device_id != d by {
            if i < a.len() {
                assert(b[i] == a[i]);
            }
        }
        assert forall|i: int| 0 <= i < n && (#[trigger] ps[i]).device_id != d implies b.contains(
            ps[i],
        ) by {
            if i < n - 1 {
                assert(a.contains(ps[i]));
                let j = choose|j: int| 0 <= j < a.len() && a[j] == ps[i];
                assert(b[j] == ps[i]);
            } else {
                assert(b[b.len() - 1] == ps[i]);
            }
        }
    }
}

proof fn lemma_filtered(ps: Seq<PartitionView>, d: u64, n: int)
    requires
        0 <= n <= ps.len(),
    ensures
        elsewhere(ps, d, n) == ps.take(n).filter(|p: PartitionView| p.device_id != d),
    decreases n,
{
    reveal(Seq::filter);
    if n > 0 {
        lemma_filtered(ps, d, n - 1);
        assert(ps.take(n).drop_last() =~= ps.take(n - 1));
    } else {
        assert(ps.take(n).filter(|p: PartitionView| p.device_id != d) =~= Seq::empty());
    }
}

/// Reading a device's table again forgets what was known of that device, and nothing
/// else: the other partitions stay in their order. While something is mounted from the
/// device it is refused.
pub proof fn rescan_forgets_one_device(st: ManagerState, device_id: u64)
    ensures
        ({
            let req = FsRequest::RescanPartitions { device_id };
            let ps = st.partitions.filter(|p: PartitionView| p.device_id != device_id);
            if exists|i: int|
                0 <= i < st.mounts.len() && (#[trigger] st.mounts[i]).device_id == device_id
                    && st.mounts[i].filesystem.on_device() {
                stepped(st, req) == (st, StepView::Reply(ResponseView::Count(Err(Error::Busy))))
            } else {
                stepped(st, req) == (
                    ManagerState { partitions: ps, ..st },
                    StepView::Scan(device_id),
                )
            }
        }),
        ({
            let ps = elsewhere(st.partitions, device_id, st.partitions.len() as int);
            &&& forall|i: int| 0 <= i < ps.len() ==> (#[trigger] ps[i]).device_id != device_id
            &&& forall|i: int|
                0 <= i < st.partitions.len() && (#[trigger] st.partitions[i]).device_id
                    != device_id ==> ps.contains(st.partitions[i])
        }),
{
    let n = st.partitions.len() as int;
    lemma_elsewhere(st.partitions, device_id, n);
    lemma_filtered(st.partitions, device_id, n);
    assert(st.partitions.take(n) =~= st.partitions);
    if exists|i: int|
        0 <= i < st.mounts.len() && (#[trigger] st.mounts[i]).device_id == device_id
            && st.mounts[i].filesystem.on_device() {
        let i = choose|i: int|
            0 <= i < st.mounts.len() && (#[trigger] st.mounts[i]).device_id == device_id
                && st.mounts[i].filesystem.on_device();
        assert(mounted_on(st.mounts[i], device_id));
    } else if backs_mount(st, device_id) {
        let i = choose|i: int|
            0 <= i < st.mounts.len() && mounted_on(#[trigger] st.mounts[i], device_id);
        assert(st.mounts[i].device_id == device_id && st.mounts[i].filesystem.on_device());
    }
}

/// Unmounting takes away the mount at that very path and leaves the others; where there is
/// none it is refused and nothing changes.
pub proof fn unmounting_takes_one_mount(st: ManagerState, p: Seq<Seq<char>>, i: int)
    requires
        apart(st),
    ensures
        0 <= i < st.mounts.len() && st.mounts[i].mount_point == p ==> unmounted(st, p) == (
            ManagerState { mounts: st.mounts.remove(i), ..st },
            Ok::<(), Error>(()),
        ),
        (forall|j: int| 0 <= j < st.mounts.len() ==> (#[trigger] st.mounts[j]).mount_point != p)
            ==> unmounted(st, p) == (st, Err::<(), Error>(Error::IoError)),
{
    lemma_mount_at(st.mounts, p, 0);
    if 0 <= i < st.mounts.len() && st.mounts[i].mount_point == p {
        let k = mount_at(st.mounts, p, 0)->Some_0;
        if k < i {
            assert(st.mounts[k].mount_point != st.mounts[i].mount_point);
        } else if i < k {
            assert(st.mounts[i].mount_point != st.mounts[k].mount_point);
        }
    }
}

/// A partition made known twice is known once. It comes behind those that were known, unless
/// one of them has the same device and the same position.
pub proof fn registering_is_idempotent(st: ManagerState, p: PartitionView)
    ensures
        known(with_partition(st, p), p),
        with_partition(with_partition(st, p), p) == with_partition(st, p),
        with_partition(st, p) == (if exists|i: int|
            0 <= i < st.partitions.len() && (#[trigger] st.partitions[i]).device_id == p.device_id
                && st.partitions[i].index == p.index {
            st
        } else {
            ManagerState { partitions: st.partitions.push(p), ..st }
        }),
{
    let s = with_partition(st, p);
    if exists|i: int|
        0 <= i < st.partitions.len() && (#[trigger] st.partitions[i]).device_id == p.device_id
            && st.partitions[i].index == p.index {
        let i = choose|i: int|
            0 <= i < st.partitions.len() && (#[trigger] st.partitions[i]).device_id == p.device_id
                && st.partitions[i].index == p.index;
        assert(same_partition(st.partitions[i], p));
    } else if known(st, p) {
        let i = choose|i: int|
            0 <= i < st.partitions.len() && same_partition(#[trigger] st.partitions[i], p);
        assert(st.partitions[i].device_id == p.device_id && st.partitions[i].index == p.index);
    }
    if !known(st, p) {
        assert(same_partition(s.partitions[st.partitions.len() as int], p));
    }
}

// ---- Doing it -------------------------------------------------------------------------

/// Reads a device's partition table: the GUID partition table, else the master boot
/// record, else nothing.
pub fn scan_device(device: &mut BlockDevice, atapi: bool) -> (r: Vec<Partition>)
    requires
        old(device).wf(),
    ensures
        final(device).wf(),
        final(device)@ == old(device)@,
        final(device).persisted() == old(device).persisted(),
        final(device).dirty() == old(device).dirty(),
        final(device).device_id == old(device).device_id,
        gpt::partition_views(r@) == scanned(
            block_device::flat(old(device)@),
            old(device).device_id,
            atapi,
        ),
{
    if atapi {
        let r: Vec<Partition> = Vec::new();
        assert(gpt::partition_views(r@) =~= Seq::empty());
        return r;
    }
    match parse_gpt(device) {
        Ok(v) => v,
        Err(_) => match parse_mbr(device) {
            Ok(v) => v,
            Err(_) => {
                let r: Vec<Partition> = Vec::new();
                assert(gpt::partition_views(r@) =~= Seq::empty());
                r
            },
        },
    }
}

/// Copies of partitions.
pub fn copy_partitions(ps: &Vec<Partition>) -> (r: Vec<Partition>)
    ensures
        gpt::partition_views(r@) == gpt::partition_views(ps@),
{
    let mut out: Vec<Partition> = Vec::new();
    let mut i: usize = 0;
    while i < ps.len()
        invariant
            i <= ps@.len(),
            gpt::partition_views(out@) == gpt::partition_views(ps@).take(i as int),
        decreases ps@.len() - i,
    {
        let ghost before = gpt::partition_views(out@);
        out.push(ps[i].duplicate());
        proof {
            assert(gpt::partition_views(out@) =~= before.push(ps@[i as int]@));
            assert(gpt::partition_views(ps@).take(i + 1) =~= before.push(ps@[i as int]@));
        }
        i = i + 1;
    }
    assert(gpt::partition_views(ps@).take(ps@.len() as int) =~= gpt::partition_views(ps@));
    out
}

/// Whether mount point `i` is the one a path lies under: the path begins with it, and no mount
/// point with which it begins too is longer, or as long and earlier.
pub open spec fn lies_under(points: Seq<Seq<Seq<char>>>, p: Seq<Seq<char>>, i: int) -> bool {
    &&& path::has_prefix(p, points[i])
    &&& forall|j: int|
        0 <= j < points.len() && path::has_prefix(p, #[trigger] points[j]) ==> points[j].len()
            < points[i].len() || (points[j].len() == points[i].len() && i <= j)
}

/// Mount points seen through their views.
pub open spec fn point_views(points: Seq<Path>) -> Seq<Seq<Seq<char>>> {
    points.map_values(|p: Path| p@)
}

/// The mount point a path lies under.
pub fn mount_of(points: &Vec<Path>, p: &Path) -> (r: Option<usize>)
    ensures
        match r {
            Some(i) => i < points@.len() && lies_under(point_views(points@), p@, i as int),
            None => forall|j: int|
                0 <= j < points@.len() ==> !path::has_prefix(p@, (#[trigger] points@[j])@),
        },
{
    let ghost all = point_views(points@);
    let mut best: Option<usize> = None;
    let mut i: usize = 0;
    while i < points.len()
        invariant
            i <= points@.len(),
            all == point_views(points@),
            match best {
                Some(b) => b < i && path::has_prefix(p@, all[b as int]) && forall|j: int|
                    0 <= j < i && path::has_prefix(p@, #[trigger] all[j]) ==> all[j].len()
                        < all[b as int].len() || (all[j].len() == all[b as int].len() && b <= j),
                None => forall|j: int|
                    0 <= j < i ==> !path::has_prefix(p@, (#[trigger] points@[j])@),
            },
        decreases points@.len() - i,
    {
        assert(all[i as int] == points@[i as int]@);
        let better: bool = match best {
            Some(b) => {
                assert(all[b as int] == points@[b as int]@);
                points[i].component_count() > points[b].component_count()
            },
            None => true,
        };
        if better && p.starts_with(&points[i]) {
            proof {
                if best is None {
                    assert forall|j: int|
                        0 <= j < i + 1 && path::has_prefix(p@, #[trigger] all[j]) implies j
                        == i by {
                        assert(all[j] == points@[j]@);
                    }
                }
            }
            best = Some(i);
        }
        i = i + 1;
    }
    best
}

impl FsManager {
    /// Nothing known, nothing mounted.
    pub fn new() -> (r: FsManager)
        ensures
            r@ == (ManagerState { partitions: Seq::empty(), mounts: Seq::empty() }),
    {
        let r = FsManager { partitions: Vec::new(), mounts: Vec::new() };
        assert(r@ =~= (ManagerState { partitions: Seq::empty(), mounts: Seq::empty() }));
        r
    }

    /// Takes in what a scan found, and says how much it was.
    pub fn scanned(&mut self, found: Vec<Partition>) -> (r: FsResponse)
        ensures
            final(self)@ == (ManagerState {
                partitions: old(self)@.partitions + gpt::partition_views(found@),
                ..old(self)@
            }),
            r@ == ResponseView::Count(Ok(found@.len() as usize)),
    {
        let n: usize = found.len();
        let mut found = found;
        let ghost before = self.partitions@;
        let ghost f = found@;
        self.partitions.append(&mut found);
        assert(self@ =~= (ManagerState {
            partitions: gpt::partition_views(before) + gpt::partition_views(f),
            ..old(self)@
        }));
        FsResponse::Count(Ok(n))
    }

    /// Whether some mount is kept on the device.
    pub fn is_mounted(&self, device_id: u64) -> (r: bool)
        ensures
            r == backs_mount(self@, device_id),
    {
        let mut i: usize = 0;
        while i < self.mounts.len()
            invariant
                i <= self.mounts@.len(),
                forall|j: int| 0 <= j < i ==> !mounted_on(#[trigger] self@.mounts[j], device_id),
            decreases self.mounts@.len() - i,
        {
            if self.mounts[i].device_id as u64 == device_id
                && self.mounts[i].filesystem.is_device_backed() {
                assert(mounted_on(self@.mounts[i as int], device_id));
                return true;
            }
            i = i + 1;
        }
        false
    }

    /// Where the mount at a path stands.
    fn find_mount(&self, p: &Path) -> (r: Option<usize>)
        ensures
            match r {
                Some(i) => mount_at(self@.mounts, p@, 0) == Some(i as int) && i
                    < self.mounts@.len(),
                None => mount_at(self@.mounts, p@, 0) is None,
            },
    {
        let mut i: usize = 0;
        while i < self.mounts.len()
            invariant
                i <= self.mounts@.len(),
                mount_at(self@.mounts, p@, 0) == mount_at(self@.mounts, p@, i as int),
            decreases self.mounts@.len() - i,
        {
            if self.mounts[i].mount_point.same(p) {
                return Some(i);
            }
            i = i + 1;
        }
        None
    }

    /// Whether something is mounted at a path.
    pub fn is_mount_point(&self, p: &Path) -> (r: bool)
        ensures
            r == mount_at(self@.mounts, p@, 0) is Some,
    {
        self.find_mount(p).is_some()
    }

    /// What is mounted.
    pub fn list_mounts(&self) -> (r: &Vec<MountInfo>)
        ensures
            mount_views(r@) == self@.mounts,
    {
        &self.mounts
    }

    fn find_mountable(&self, device_id: usize, index: usize) -> (r: Option<usize>)
        ensures
            match r {
                Some(i) => mountable_at(self@.partitions, device_id as int, index as int, 0)
                    == Some(i as int) && i < self.partitions@.len(),
                None => mountable_at(
                    self@.partitions,
                    device_id as int,
                    index as int,
                    0,
                ) is None,
            },
    {
        let mut i: usize = 0;
        while i < self.partitions.len()
            invariant
                i <= self.partitions@.len(),
                mountable_at(self@.partitions, device_id as int, index as int, 0) == mountable_at(
                    self@.partitions,
                    device_id as int,
                    index as int,
                    i as int,
                ),
            decreases self.partitions@.len() - i,
        {
            if self.partitions[i].device_id == device_id as u64 && self.partitions[i].index
                == index && self.partitions[i].filesystem.is_some() {
                return Some(i);
            }
            i = i + 1;
        }
        None
    }

    /// Makes a partition known, unless it is.
    pub fn register(&mut self, p: Partition)
        ensures
            final(self)@ == with_partition(old(self)@, p@),
    {
        let mut i: usize = 0;
        let ghost st = self@;
        while i < self.partitions.len()
            invariant
                i <= self.partitions@.len(),
                *self == *old(self),
                st == self@,
                forall|j: int| 0 <= j < i ==> !same_partition(#[trigger] st.partitions[j], p@),
            decreases self.partitions@.len() - i,
        {
            if self.partitions[i].device_id == p.device_id && self.partitions[i].index == p.index {
                assert(same_partition(st.partitions[i as int], p@));
                return;
            }
            i = i + 1;
        }
        self.partitions.push(p);
        assert(self@ =~= ManagerState { partitions: st.partitions.push(p@), ..st });
    }

    /// Forgets the partitions of a device.
    fn forget(&mut self, device_id: u64)
        ensures
            final(self)@ == (ManagerState {
                partitions: elsewhere(
                    old(self)@.partitions,
                    device_id,
                    old(self)@.partitions.len() as int,
                ),
                ..old(self)@
            }),
    {
        let mut kept: Vec<Partition> = Vec::new();
        let mut i: usize = 0;
        assert(gpt::partition_views(kept@) =~= Seq::empty());
        while i < self.partitions.len()
            invariant
                i <= self.partitions@.len(),
                *self == *old(self),
                gpt::partition_views(kept@) == elsewhere(
                    self@.partitions,
                    device_id,
                    i as int,
                ),
            decreases self.partitions@.len() - i,
        {
            let ghost before = gpt::partition_views(kept@);
            if self.partitions[i].device_id != device_id {
                kept.push(self.partitions[i].duplicate());
                assert(gpt::partition_views(kept@) =~= before.push(self@.partitions[i as int]));
            }
            i = i + 1;
        }
        self.partitions = kept;
        assert(self@.mounts =~= old(self)@.mounts);
    }

    /// The plan for a mount.
    pub fn plan_mount(
        &self,
        device_id: usize,
        partition_index: usize,
        mount_point: Path,
        fstype: FilesystemType,
    ) -> (r: Result<MountPlan, Error>)
        ensures
            match r {
                Ok(plan) => planned(
                    self@,
                    device_id,
                    partition_index,
                    mount_point@,
                    fstype,
                ) == Ok::<(Source, MountView), Error>((plan.source, plan.mount@)),
                Err(e) => planned(self@, device_id, partition_index, mount_point@, fstype) == Err::<
                    (Source, MountView),
                    Error,
                >(e),
            },
    {
        if self.is_mount_point(&mount_point) {
            return Err(Error::IoError);
        }
        let at = self.find_mountable(device_id, partition_index);
        let source = match fstype {
            FilesystemType::Fat12 | FilesystemType::Fat16 | FilesystemType::Fat32 => match at {
                Some(i) => Source::Fat(i),
                None => {
                    return Err(Error::IoError);
                },
            },
            FilesystemType::Efs => match at {
                Some(i) => Source::Efs(i),
                None => {
                    return Err(Error::IoError);
                },
            },
            FilesystemType::Memfs => Source::Memfs,
            FilesystemType::Devfs => Source::Devfs,
            FilesystemType::Procfs => Source::Procfs,
            FilesystemType::Unknown | FilesystemType::Iso9660 | FilesystemType::Ntfs => {
                return Err(Error::IoError);
            },
        };
        let mount = if fstype.is_device_backed() {
            MountInfo { mount_point, device_id, partition_index, filesystem: fstype }
        } else {
            MountInfo { mount_point, device_id: 0, partition_index: 0, filesystem: fstype }
        };
        Ok(MountPlan { source, mount })
    }

    /// Takes in whether the file system of a plan could be opened. If it could, it is
    /// mounted.
    pub fn opened(&mut self, plan: MountPlan, ok: bool) -> (r: FsResponse)
        ensures
            final(self)@ == (if ok {
                ManagerState { mounts: old(self)@.mounts.push(plan.mount@), ..old(self)@ }
            } else {
                old(self)@
            }),
            r@ == ResponseView::Done(
                if ok {
                    Ok(())
                } else {
                    Err(Error::IoError)
                },
            ),
    {
        if !ok {
            return FsResponse::Done(Err(Error::IoError));
        }
        let ghost st = self@;
        self.mounts.push(plan.mount);
        assert(self@ =~= (ManagerState { mounts: st.mounts.push(plan.mount@), ..st }));
        FsResponse::Done(Ok(()))
    }

    /// Takes a mount away.
    pub fn unmount(&mut self, p: &Path) -> (r: Result<(), Error>)
        ensures
            (final(self)@, r) == unmounted(old(self)@, p@),
    {
        let ghost st = self@;
        match self.find_mount(p) {
            Some(i) => {
                self.mounts.remove(i);
                assert(self@ =~= (ManagerState { mounts: st.mounts.remove(i as int), ..st }));
                Ok(())
            },
            None => Err(Error::IoError),
        }
    }

    /// Settles a request, or says what it takes to settle it.
    pub fn step(&mut self, req: FsRequest) -> (r: FsStep)
        ensures
            (final(self)@, r@) == stepped(old(self)@, req),
    {
        match req {
            FsRequest::ListPartitions => {
                FsStep::Reply(FsResponse::Partitions(copy_partitions(&self.partitions)))
            },
            FsRequest::RegisterPartition { partition } => {
                self.register(partition);
                FsStep::Reply(FsResponse::Done(Ok(())))
            },
            FsRequest::RescanPartitions { device_id } => {
                if self.is_mounted(device_id) {
                    FsStep::Reply(FsResponse::Count(Err(Error::Busy)))
                } else {
                    self.forget(device_id);
                    FsStep::Scan(device_id)
                }
            },
            FsRequest::Mount { device_id, partition_index, mount_point, fstype } => {
                match self.plan_mount(device_id, partition_index, mount_point, fstype) {
                    Ok(plan) => FsStep::Open(plan),
                    Err(e) => FsStep::Reply(FsResponse::Done(Err(e))),
                }
            },
            FsRequest::Unmount { mount_point } => {
                let r = self.unmount(&mount_point);
                FsStep::Reply(FsResponse::Done(r))
            },
        }
    }
}

// ---- Reading answers --------------------------------------------------------------------

/// What an answer to a request that settles something says. Another kind of answer is a
/// mismatch.
pub fn expect_ok(res: FsResponse) -> (r: Result<(), Error>)
    ensures
        r == (match res@ {
            ResponseView::Done(x) => x,
            _ => Err::<(), Error>(Error::ProtocolMismatch),
        }),
{
    match res {
        FsResponse::Done(x) => x,
        FsResponse::Partitions(_) => Err(Error::ProtocolMismatch),
        FsResponse::Count(_) => Err(Error::ProtocolMismatch),
    }
}

/// The partitions of an answer that lists them.
pub fn expect_partitions(res: FsResponse) -> (r: Result<Vec<Partition>, Error>)
    ensures
        match r {
            Ok(v) => res@ == ResponseView::Partitions(gpt::partition_views(v@)),
            Err(e) => e == Error::ProtocolMismatch && !(res@ is Partitions),
        },
{
    match res {
        FsResponse::Partitions(v) => Ok(v),
        FsResponse::Done(_) => Err(Error::ProtocolMismatch),
        FsResponse::Count(_) => Err(Error::ProtocolMismatch),
    }
}

/// The count of an answer that counts.
pub fn expect_count(res: FsResponse) -> (r: Result<usize, Error>)
    ensures
        r == (match res@ {
            ResponseView::Count(x) => x,
            _ => Err::<usize, Error>(Error::ProtocolMismatch),
        }),
{
    match res {
        FsResponse::Count(x) => x,
        FsResponse::Done(_) => Err(Error::ProtocolMismatch),
        FsResponse::Partitions(_) => Err(Error::ProtocolMismatch),
    }
}

} // verus!

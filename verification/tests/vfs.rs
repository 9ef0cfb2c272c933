use edos_fs::api::{escapes, mount_point_info, settle_inode, LinkAction, LinkEvent, LinkWalk, PathOp, Resolver};
use edos_fs::block_device::BlockDevice;
use edos_fs::dentry::DentryCache;
use edos_fs::devfs::block::{
    answer_rescan, device_name, hand_over, register_all, BlockDevNode, BLOCK_IOCTL_FLUSH, BLOCK_IOCTL_IS_MOUNTED,
    BLOCK_IOCTL_RESCAN, BLOCK_IOCTL_SECTOR_COUNT,
};
use edos_fs::devfs::device::{pass_on, DevFsDevice, DevFsError};
use edos_fs::devfs::registry::{
    lookup_device, register_device, register_device_str, try_lookup_from_full_path, unregister_device_str, DevFs,
};
use edos_fs::error::Error;
use edos_fs::evict::{log_fallback, EvictAction, EvictRequest, Evictor, EVICT_QUEUE_CAP};
use edos_fs::fifo::{FifoRegistry, OpenMode, OpenStep};
use edos_fs::filesystem::FileSystem;
use edos_fs::gpt::{FilesystemType, Guid, Partition, PartitionType};
use edos_fs::handle::{PollRef, PollSet, Pollable, StaticPoll};
use edos_fs::icache::InodeCache;
use edos_fs::inode::VfsInode;
use edos_fs::journal::faultinject::JournalCtl;
use edos_fs::manager::{
    expect_count, expect_ok, expect_partitions, mount_of, scan_device, FsManager, FsRequest, FsResponse, FsStep, Source,
};
use edos_fs::memfs::tree::Memfs;
use edos_fs::page_cache::{CachedPage, InodePages, PageCacheOps};
use edos_fs::page_fill::{
    cancel_fill, get_or_fill_async_sync, inline_fill_no_handle, FillAction, FillEvent, FillStage, Fills,
};
use edos_fs::path::Path;
use edos_fs::types::{FileKind, LinkMode, PollState};

fn path(s: &str) -> Path {
    Path::parse(s).unwrap()
}

fn partition(device_id: u64, index: usize) -> Partition {
    Partition {
        index,
        starting_lba: 64,
        ending_lba: 127,
        size_sectors: 64,
        partition_type: PartitionType::LinuxFilesystem,
        name: "part".to_string(),
        filesystem: Some(FilesystemType::Efs),
        device_id,
        unique_partition_guid: Guid { low: device_id, high: index as u64 },
    }
}

// ---- Operations on paths

#[test]
fn operations_know_how_they_resolve() {
    assert_eq!(PathOp::CreateFile.resolver(), Resolver::Mount);
    assert_eq!(PathOp::FileInfo.resolver(), Resolver::Info);
    assert_eq!(PathOp::ReadBytes.resolver(), Resolver::Inode);
    assert_eq!(PathOp::RemoveFile.mode(), LinkMode::NoFollow);
    assert_eq!(PathOp::ReadBytes.mode(), LinkMode::Follow);
}

#[test]
fn eight_links_are_too_many() {
    let mut w = LinkWalk::with_links(&path("/a"));
    for i in 0..7 {
        assert_eq!(w.next(LinkEvent::Escaped(Ok(path(&format!("/p{}", i))))), LinkAction::Run);
    }
    assert_eq!(w.path.display(), "/p6");
    assert_eq!(w.next(LinkEvent::Escaped(Ok(path("/b")))), LinkAction::Fail(Error::TooManyLinks));
    let mut w = LinkWalk::with_links(&path("/a"));
    assert_eq!(w.next(LinkEvent::Unresolved), LinkAction::Fail(Error::FileNotFound));
    assert_eq!(w.next(LinkEvent::Escaped(Err(Error::IoError))), LinkAction::Fail(Error::IoError));
    assert_eq!(w.next(LinkEvent::Finished), LinkAction::Done);
}

#[test]
fn mount_points_and_files_are_told_apart() {
    assert!(escapes(Some(Error::LinkEscape)));
    assert!(!escapes(Some(Error::IoError)));
    assert!(!escapes(None));
    assert_eq!(mount_point_info(&path("/mnt")).name, "mnt");
    assert_eq!(mount_point_info(&path("/")).name, "/");
    assert_eq!(settle_inode(Some(4), Ok(())), Ok(4));
    assert_eq!(settle_inode(None, Err(Error::IoError)), Err(Error::IoError));
    assert_eq!(settle_inode(None, Ok(())), Err(Error::FileNotFound));
}

// ---- Mounts

#[test]
fn mounts_come_and_go() {
    let mut m = FsManager::new();
    m.register(partition(3, 0));
    m.register(partition(3, 0));
    assert_eq!(m.partitions.len(), 1);
    let plan = match m.step(FsRequest::Mount {
        device_id: 3,
        partition_index: 0,
        mount_point: path("/mnt"),
        fstype: FilesystemType::Efs,
    }) {
        FsStep::Open(p) => p,
        _ => panic!("not planned"),
    };
    assert!(plan.source == Source::Efs(0));
    assert_eq!(expect_ok(m.opened(plan, true)), Ok(()));
    assert!(m.is_mounted(3));
    assert!(m.is_mount_point(&path("/mnt")));
    assert_eq!(m.list_mounts().len(), 1);
    assert!(m.plan_mount(3, 0, path("/mnt"), FilesystemType::Efs).is_err());
    assert_eq!(m.unmount(&path("/mnt")), Ok(()));
    assert!(m.unmount(&path("/mnt")).is_err());
    assert!(!m.is_mounted(3));
}

#[test]
fn mounts_that_do_not_open_are_not_there() {
    let mut m = FsManager::new();
    let plan = m.plan_mount(0, 0, path("/tmp"), FilesystemType::Memfs).ok().unwrap();
    assert!(plan.source == Source::Memfs);
    assert!(expect_ok(m.opened(plan, false)).is_err());
    assert!(!m.is_mount_point(&path("/tmp")));
    assert!(m.plan_mount(9, 9, path("/x"), FilesystemType::Efs).is_err());
    assert!(m.plan_mount(0, 0, path("/x"), FilesystemType::Ntfs).is_err());
}

#[test]
fn paths_lie_under_the_longest_mount_point() {
    let points = vec![path("/"), path("/mnt"), path("/mnt/disk"), path("/mnt")];
    assert_eq!(mount_of(&points, &path("/mnt/disk/a")), Some(2));
    assert_eq!(mount_of(&points, &path("/mnt/diskette")), Some(1));
    assert_eq!(mount_of(&points, &path("/etc")), Some(0));
    assert_eq!(mount_of(&vec![path("/mnt")], &path("/etc")), None);
}

#[test]
fn devices_in_use_are_not_rescanned() {
    let mut m = FsManager::new();
    m.register(partition(3, 0));
    m.register(partition(4, 0));
    assert!(matches!(m.step(FsRequest::RescanPartitions { device_id: 3 }), FsStep::Scan(3)));
    assert_eq!(m.partitions.len(), 1);
    assert_eq!(expect_count(m.scanned(vec![partition(3, 0), partition(3, 1)])), Ok(2));
    assert_eq!(m.partitions.len(), 3);
    let plan = m.plan_mount(4, 0, path("/mnt"), FilesystemType::Efs).ok().unwrap();
    m.opened(plan, true);
    match m.step(FsRequest::RescanPartitions { device_id: 4 }) {
        FsStep::Reply(r) => assert_eq!(expect_count(r), Err(Error::Busy)),
        _ => panic!("scanned"),
    }
}

#[test]
fn answers_of_the_wrong_kind_are_mismatches() {
    assert_eq!(expect_ok(FsResponse::Count(Ok(1))), Err(Error::ProtocolMismatch));
    assert_eq!(expect_count(FsResponse::Done(Ok(()))), Err(Error::ProtocolMismatch));
    assert!(expect_partitions(FsResponse::Done(Ok(()))).err() == Some(Error::ProtocolMismatch));
    assert_eq!(expect_partitions(FsResponse::Partitions(vec![partition(1, 1)])).ok().unwrap().len(), 1);
    let mut blank = BlockDevice::from_image(1, &vec![0u8; 8192]);
    assert!(scan_device(&mut blank, false).is_empty());
    assert!(scan_device(&mut blank, true).is_empty());
}

// ---- Remembered paths and files in use

#[test]
fn remembered_paths_are_found_until_forgotten() {
    let mut d = DentryCache::new();
    d.insert(1, path("/a"), 10);
    d.insert(1, path("/a/b"), 11);
    d.insert(1, path("/a/b/c"), 12);
    d.insert(2, path("/a"), 20);
    assert_eq!(d.lookup(1, &path("/a")), Some(10));
    assert_eq!(d.lookup(2, &path("/a")), Some(20));
    assert_eq!(d.lookup(3, &path("/a")), None);
    d.insert(1, path("/a"), 13);
    assert_eq!(d.lookup(1, &path("/a")), Some(10));
    d.invalidate_children(1, &path("/a"));
    assert_eq!(d.lookup(1, &path("/a/b")), None);
    d.invalidate(1, &path("/a"));
    assert_eq!(d.lookup(1, &path("/a")), None);
    assert_eq!(d.lookup(2, &path("/a")), Some(20));
}

#[test]
fn files_in_use_have_one_description() {
    let mut c = InodeCache::new();
    let h = c.get_or_insert(1, 5, FileKind::File);
    assert_eq!(c.get_or_insert(1, 5, FileKind::File), h);
    assert_ne!(c.get_or_insert(2, 5, FileKind::File), h);
    c.mark_orphan(h);
    assert_eq!(c.release(h), None);
    assert_eq!(c.release(h), Some(EvictRequest { mount_id: 1, ino: 5 }));
    assert_ne!(c.get_or_insert(1, 5, FileKind::File), h);
}

#[test]
fn held_pages_stay_with_their_file() {
    let mut c = InodeCache::new();
    let h = c.get_or_insert(1, 5, FileKind::File);
    let mut l = c.live.remove(h).unwrap();
    inline_fill_no_handle(&mut l.inode.pages, 2, Ok(vec![4u8; 4096])).unwrap();
    l.inode.pages.mark_dirty(2);
    c.live.insert(h, l);
    assert_eq!(c.get_or_insert(1, 5, FileKind::File), h);
    let other = c.get_or_insert(1, 6, FileKind::File);
    assert!(c.live.get(other).unwrap().inode.pages.dirty_batch().is_empty());
    c.mark_orphan(h);
    c.release(h);
    let batch = c.live.get(h).unwrap().inode.pages.dirty_batch();
    assert_eq!((batch.len(), batch[0].index, batch[0].data[0]), (1, 2, 4));
}

#[test]
fn orphans_are_freed_on_release() {
    let mut i = VfsInode::new(2, 9, FileKind::File);
    assert_eq!(i.on_release(), None);
    i.mark_orphan();
    assert!(i.is_orphan());
    assert_eq!(i.on_release(), Some(EvictRequest { mount_id: 2, ino: 9 }));
}

// ---- Eviction

#[test]
fn evictions_are_carried_out_in_order() {
    let mut e = Evictor::new();
    assert!(e.is_idle());
    e.started(7);
    assert!(e.current_thread_is_evict_kthread(7));
    for ino in 1..4 {
        assert_eq!(e.post_evict(EvictRequest { mount_id: 1, ino }, 2, false), EvictAction::Wake);
    }
    assert!(!e.is_idle());
    assert_eq!(e.pop(), Some(EvictRequest { mount_id: 1, ino: 1 }));
    let rest: Vec<u64> = e.drain().into_iter().map(|r| r.ino).collect();
    assert_eq!(rest, vec![2, 3]);
    assert_eq!(e.pop(), None);
    e.evicted(true);
    assert_eq!(e.evict_kthread_drain_count(), 1);
}

#[test]
fn evictions_are_never_lost() {
    let mut e = Evictor::new();
    e.started(7);
    for ino in 0..EVICT_QUEUE_CAP as u64 {
        e.post_evict(EvictRequest { mount_id: 1, ino: ino + 1 }, 2, false);
    }
    assert!(e.is_full());
    let more = EvictRequest { mount_id: 1, ino: 9999 };
    assert_eq!(e.post_evict(more, 2, false), EvictAction::EvictNow);
    assert_eq!(e.post_evict(more, 2, true), EvictAction::Wake);
    assert_eq!(e.take_overflow(), vec![more]);
    assert_eq!(e.drain().len(), EVICT_QUEUE_CAP);
    assert!(log_fallback(512, false));
    assert!(log_fallback(1, true));
    assert!(!log_fallback(1, false));
}

// ---- Named pipes

#[test]
fn pipes_wait_for_their_peer() {
    let mut f = FifoRegistry::new();
    let (id, s) = f.open(1, 5, OpenMode::ReadOnly, false);
    assert_eq!(s, OpenStep::Wait);
    assert_eq!(f.resume(id, OpenMode::ReadOnly, false), OpenStep::Wait);
    let (other, s) = f.open(1, 5, OpenMode::WriteOnly, false);
    assert_eq!((other, s), (id, OpenStep::Open));
    assert_eq!(f.resume(id, OpenMode::ReadOnly, false), OpenStep::Open);
    f.close(id, OpenMode::WriteOnly);
    f.close(id, OpenMode::ReadOnly);
    assert_ne!(f.incarnation(1, 5), id);
}

#[test]
fn pipes_that_do_not_wait_need_a_reader() {
    let mut f = FifoRegistry::new();
    assert_eq!(f.open(1, 5, OpenMode::WriteOnly, true).1, OpenStep::NoReader);
    assert_eq!(f.open(1, 5, OpenMode::ReadOnly, true).1, OpenStep::Open);
    assert_eq!(f.open(1, 5, OpenMode::WriteOnly, true).1, OpenStep::Open);
    assert_eq!(f.open(1, 6, OpenMode::ReadWrite, false).1, OpenStep::Open);
    let (id, s) = f.open(1, 7, OpenMode::ReadOnly, false);
    assert_eq!(s, OpenStep::Wait);
    assert_eq!(f.resume(id, OpenMode::ReadOnly, true), OpenStep::Interrupted);
    f.forget(1, 7);
    assert!(OpenMode::ReadWrite.readable() && OpenMode::ReadWrite.writable());
}

// ---- Polling

#[test]
fn readiness_is_told() {
    let mut set = PollSet::new(&[PollState::with_readable(), PollState::from_bits(2)]);
    assert!(!set.arm());
    let r = PollRef::new(1);
    r.update(&mut set, PollState::with_readable());
    assert!(!set.pending);
    assert_eq!(set.state(1), PollState::with_readable());
    let mut file = StaticPoll::ready();
    let reg = file.register(&mut set, PollRef::new(0));
    assert_eq!(reg.initial.to_bits(), 3);
    assert!(set.arm());
    assert!(!set.arm());
    assert_eq!(PollRef::new(0).interests(&set), PollState::with_readable());
}

// ---- Devices

#[test]
fn devices_are_registered_and_found() {
    let mut fs: DevFs<JournalCtl> = DevFs::new();
    assert!(register_device_str(&mut fs, "/journal/ctl", JournalCtl::new()).is_ok());
    assert!(register_device(&mut fs, &path("/journal/ctl"), JournalCtl::new()) == Err(DevFsError::AlreadyExists));
    assert!(fs.is_directory(&path("/journal")));
    assert!(lookup_device(&fs, &path("/journal/ctl")).is_some());
    assert!(try_lookup_from_full_path(&fs, &path("/dev/journal/ctl")).is_some());
    assert_eq!(fs.read_bytes(&path("/journal/ctl"), 0, 100), Ok(b"checkpoint: running\n".to_vec()));
    assert_eq!(fs.write_bytes(&path("/journal/ctl"), 0, b" pause\n", 0), Ok(7));
    assert_eq!(fs.read_bytes(&path("/journal/ctl"), 12, 6), Ok(b"paused".to_vec()));
    assert_eq!(fs.write_bytes(&path("/journal/ctl"), 0, &[0xFF], 0), Err(Error::Unsupported));
    assert_eq!(fs.list_files(&path("/journal")).unwrap().len(), 1);
    assert_eq!(fs.file_info(&path("/journal/ctl")).unwrap().kind, FileKind::Special);
    assert!(unregister_device_str(&mut fs, "/journal/ctl").is_ok());
    assert_eq!(fs.read_bytes(&path("/journal/ctl"), 0, 1), Err(Error::FileNotFound));
    assert_eq!(fs.create_file(&path("/x"), 0), Err(Error::Unsupported));
}

#[test]
fn block_devices_are_files() {
    let image = vec![7u8; 8192];
    let mut n = BlockDevNode {
        device: BlockDevice::from_image(1, &image),
        mounted: false,
        atapi: false,
        found: None,
    };
    assert_eq!(n.sectors(), 16);
    assert_eq!(n.read(4090, 10), Ok(vec![7u8; 10]));
    assert!(n.read(8190, 3) == Err(DevFsError::InvalidPath));
    assert!(n.read(0, 0) == Err(DevFsError::InvalidPath));
    assert_eq!(n.write(100, b"abc"), Ok(3));
    assert_eq!(n.read(100, 3), Ok(b"abc".to_vec()));
    assert_eq!(n.ioctl(BLOCK_IOCTL_SECTOR_COUNT, 0, 0), Ok(16));
    assert_eq!(n.ioctl(BLOCK_IOCTL_FLUSH, 0, 0), Ok(0));
    assert_eq!(n.device.home_page(0).unwrap()[100..103], b"abc"[..]);
    assert_eq!(n.ioctl(BLOCK_IOCTL_IS_MOUNTED, 0, 0), Ok(0));
    assert_eq!(n.ioctl(BLOCK_IOCTL_RESCAN, 0, 0), Ok(0));
    n.mounted = true;
    assert!(n.write(100, b"abc") == Err(DevFsError::Busy));
    assert!(n.ioctl(99, 0, 0).is_err());
    assert!(answer_rescan(Err(Error::Busy)) == Err(DevFsError::Busy));
    assert!(answer_rescan(Err(Error::NoSpace)) == Err(DevFsError::IoError));
}

#[test]
fn block_devices_are_rescanned() {
    let mut b = vec![0u8; 16 * 4096];
    b[510..512].copy_from_slice(&[0x55, 0xAA]);
    let mut n = BlockDevNode { device: BlockDevice::from_image(3, &b), mounted: false, atapi: false, found: None };
    let mut m = FsManager::new();
    m.register(partition(3, 0));
    m.register(partition(4, 0));
    assert!(!hand_over(&mut n, &mut m));
    n.write(446, &[0, 0, 0, 0, 0x83, 0, 0, 0, 64, 0, 0, 0, 8, 0, 0, 0]).unwrap();
    assert_eq!(n.ioctl(BLOCK_IOCTL_RESCAN, 0, 0), Ok(1));
    assert!(hand_over(&mut n, &mut m));
    assert!(n.found.is_none());
    let known: Vec<(u64, u64)> = m.partitions.iter().map(|p| (p.device_id, p.size_sectors)).collect();
    assert_eq!(known, vec![(4, 64), (3, 8)]);
    n.mounted = true;
    assert!(n.ioctl(BLOCK_IOCTL_RESCAN, 0, 0) == Err(DevFsError::Busy));
    assert!(n.found.is_none());
}

#[test]
fn requests_reach_the_device() {
    let mut fs: DevFs<BlockDevNode> = DevFs::new();
    let device = BlockDevice::from_image(1, &vec![0u8; 8192]);
    let node = BlockDevNode { device, mounted: false, atapi: false, found: None };
    assert!(register_device_str(&mut fs, "/sda", node).is_ok());
    assert_eq!(fs.ioctl(&path("/sda"), BLOCK_IOCTL_SECTOR_COUNT, 0, 0), Ok(16));
    assert_eq!(fs.ioctl(&path("/sda"), 99, 0, 0), Err(Error::Unsupported));
    assert_eq!(fs.ioctl(&path("/sdb"), 99, 0, 0), Err(Error::FileNotFound));
    assert_eq!(fs.write_bytes(&path("/sda"), 4094, b"abcd", 0), Ok(4));
    assert_eq!(fs.read_bytes(&path("/sda"), 4093, 6), Ok(b"\0abcd\0".to_vec()));
    assert_eq!(fs.read_bytes(&path("/sda"), 8190, 3), Err(Error::InvalidArgument));
    assert_eq!(fs.poll(&path("/sda")).err(), Some(Error::Unsupported));
    assert!(fs.mmap(&path("/sda"), 0, 4096).err() == Some(Error::Unsupported));
}

#[test]
fn block_devices_have_names() {
    assert_eq!(device_name(0, 99, 4), Some("sda".to_string()));
    assert_eq!(device_name(1001, 99, 4), Some("sdf".to_string()));
    assert_eq!(device_name(99, 99, 4), Some("ram0".to_string()));
    assert_eq!(device_name(30, 99, 4), None);
    let mut fs: DevFs<JournalCtl> = DevFs::new();
    register_all(&mut fs, &vec![0, 1], vec![JournalCtl::new(), JournalCtl::new()], 99, 4);
    assert!(lookup_device(&fs, &path("/sdb")).is_some());
    assert_eq!(pass_on::<u8>(Err(DevFsError::Busy)), Err(Error::Busy));
    assert_eq!(pass_on(Ok(3)), Ok(3));
}

// ---- Pages of files

#[test]
fn dirty_pages_reach_the_file() {
    let mut fs = Memfs::new(0);
    fs.create_file(&path("/f"), 0).unwrap();
    let ino = fs.resolve_inode(&path("/f")).unwrap();
    fs.update_size(ino, 8192, 0).unwrap();
    let mut pages = InodePages::new();
    inline_fill_no_handle(&mut pages, 1, Ok(vec![5u8; 4096])).unwrap();
    pages.mark_dirty(1);
    assert_eq!(pages.dirty_batch().len(), 1);
    pages.flush_dirty(&mut fs, ino).unwrap();
    assert!(pages.dirty_batch().is_empty());
    assert_eq!(fs.read_bytes(&path("/f"), 4096, 4096), Ok(vec![5u8; 4096]));
    pages.mark_dirty(1);
    pages.zero_tail(5000);
    pages.flush_dirty_bulk(&mut fs, ino, None, 0).unwrap();
    let got = fs.read_bytes(&path("/f"), 4096, 4096).unwrap();
    assert!(got[..904].iter().all(|b| *b == 5));
    assert!(got[904..].iter().all(|b| *b == 0));
    pages.mark_dirty(1);
    pages.invalidate_from(1);
    assert!(pages.dirty_batch().is_empty());
}

#[test]
fn pages_that_cannot_be_flushed_stay_dirty() {
    let mut fs = Memfs::new(0);
    let mut pages = InodePages::new();
    assert_eq!(pages.flush_dirty_bulk(&mut fs, 77, Some(1), 0), Ok(()));
    for k in [1, 0] {
        inline_fill_no_handle(&mut pages, k, Ok(vec![5u8; 4096])).unwrap();
        pages.mark_dirty(k);
    }
    assert!(pages.flush_dirty_bulk(&mut fs, 77, None, 0).is_err());
    assert_eq!(pages.dirty_batch().len(), 2);
    fs.create_file(&path("/f"), 0).unwrap();
    let ino = fs.resolve_inode(&path("/f")).unwrap();
    pages.flush_dirty_bulk(&mut fs, ino, Some(5000), 0).unwrap();
    assert!(pages.dirty_batch().is_empty());
    assert_eq!(fs.file_info(&path("/f")).unwrap().size, 5000);
    assert_eq!(fs.read_bytes(&path("/f"), 4000, 2000), Ok(vec![5u8; 1000]));
}

#[test]
fn pages_are_pinned_and_marked() {
    let mut p = CachedPage::new(vec![1u8; 4096]);
    p.pin();
    p.mark_dirty();
    assert!(p.is_dirty());
    p.clear_dirty();
    p.unpin();
    assert!(!p.is_dirty());
    assert_eq!(p.as_slice().len(), 4096);
}

#[test]
fn a_page_is_filled_once() {
    let mut pages = InodePages::new();
    let mut fills = Fills::new();
    let (s1, a1, _) = get_or_fill_async_sync(&mut pages, &mut fills, 3, FillStage::Start, FillEvent::Begin);
    let h = match a1 {
        FillAction::Register(h) => h,
        _ => panic!("not published"),
    };
    let (s2, a2, _) = get_or_fill_async_sync(&mut pages, &mut fills, 3, FillStage::Start, FillEvent::Begin);
    assert!(a2 == FillAction::Wait(h));
    fills.join(h, 42);
    let (s1, a1, _) = get_or_fill_async_sync(&mut pages, &mut fills, 3, s1, FillEvent::Registered(true));
    assert!(a1 == FillAction::Allocate);
    let (s1, a1, _) = get_or_fill_async_sync(&mut pages, &mut fills, 3, s1, FillEvent::Allocated(true));
    assert!(a1 == FillAction::Fill);
    let (s1, a1, woken) =
        get_or_fill_async_sync(&mut pages, &mut fills, 3, s1, FillEvent::Filled(Ok(vec![8u8; 4096])));
    assert!(a1 == FillAction::UsePage && s1 == FillStage::Over);
    assert_eq!(woken, vec![42]);
    let (_, a2, _) = get_or_fill_async_sync(&mut pages, &mut fills, 3, s2, FillEvent::Woken);
    assert!(a2 == FillAction::UsePage);
}

#[test]
fn a_fill_that_fails_wakes_those_who_wait() {
    let mut pages = InodePages::new();
    let mut fills = Fills::new();
    let (_, a, _) = get_or_fill_async_sync(&mut pages, &mut fills, 3, FillStage::Start, FillEvent::Begin);
    let h = match a {
        FillAction::Register(h) => h,
        _ => panic!("not published"),
    };
    fills.join(h, 42);
    assert_eq!(cancel_fill(&mut pages, &mut fills, h), vec![42]);
    let (_, a, _) = get_or_fill_async_sync(&mut pages, &mut fills, 3, FillStage::Start, FillEvent::Begin);
    assert!(matches!(a, FillAction::Register(_)));
    assert_eq!(inline_fill_no_handle(&mut pages, 4, Err(Error::IoError)), Err(Error::IoError));
}

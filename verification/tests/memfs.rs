use edos_fs::error::Error;
use edos_fs::filesystem::FileSystem;
use edos_fs::memfs::tree::Memfs;
use edos_fs::page_cache::PageCacheOps;
use edos_fs::path::Path;
use edos_fs::types::{FileKind, FileTime, LinkMode};

const NOW: u64 = 946_684_800;

fn path(s: &str) -> Path {
    Path::parse(s).unwrap()
}

fn with_file(p: &str) -> Memfs {
    let mut fs = Memfs::new(NOW);
    fs.create_file(&path(p), NOW).unwrap();
    fs
}

#[test]
fn mem_write_is_read_back() {
    let mut fs = with_file("/a");
    assert_eq!(fs.write_bytes(&path("/a"), 0, b"abc", NOW), Ok(3));
    assert_eq!(fs.write_bytes(&path("/a"), 3, b"hello", NOW), Ok(5));
    assert_eq!(fs.read_bytes(&path("/a"), 3, 5), Ok(b"hello".to_vec()));
    assert_eq!(fs.read_bytes(&path("/a"), 0, 100), Ok(b"abchello".to_vec()));
    assert_eq!(fs.write_bytes(&path("/a"), 9, b"x", NOW), Err(Error::IoError));
    assert_eq!(fs.file_info(&path("/a")).unwrap().size, 8);
}

#[test]
fn mem_write_keeps_the_rest() {
    let mut fs = with_file("/a");
    fs.write_bytes(&path("/a"), 0, b"abcdef", NOW).unwrap();
    fs.write_bytes(&path("/a"), 2, b"XY", NOW).unwrap();
    assert_eq!(fs.read_bytes(&path("/a"), 0, 6), Ok(b"abXYef".to_vec()));
}

#[test]
fn mem_reads_end_with_the_file() {
    let mut fs = with_file("/a");
    fs.write_bytes(&path("/a"), 0, b"abc", NOW).unwrap();
    assert_eq!(fs.read_bytes(&path("/a"), 3, 10), Ok(Vec::new()));
    assert_eq!(fs.read_bytes(&path("/a"), 2, 10), Ok(b"c".to_vec()));
}

#[test]
fn mem_created_is_found_and_listed() {
    let mut fs = Memfs::new(NOW);
    fs.create_dir(&path("/d"), NOW).unwrap();
    fs.create_file(&path("/d/f"), NOW).unwrap();
    let info = fs.file_info(&path("/d/f")).unwrap();
    assert_eq!(info.name, "f");
    assert_eq!(info.kind, FileKind::File);
    assert_eq!(info.created, Some(FileTime::from_unix_secs(NOW)));
    let names: Vec<String> = fs.list_files(&path("/d")).unwrap().into_iter().map(|f| f.name).collect();
    assert_eq!(names, vec!["f"]);
}

#[test]
fn mem_errors_say_what_is_wrong() {
    let mut fs = with_file("/f");
    fs.create_dir(&path("/d"), NOW).unwrap();
    assert_eq!(fs.read_bytes(&path("/missing"), 0, 1), Err(Error::FileNotFound));
    assert_eq!(fs.read_bytes(&path("/d"), 0, 1), Err(Error::NotAFile));
    assert_eq!(fs.list_files(&path("/f")).err(), Some(Error::NotADir));
    assert_eq!(fs.remove_dir(&path("/f"), NOW), Err(Error::NotADir));
    assert_eq!(fs.remove_file(&path("/d"), NOW), Err(Error::NotAFile));
    assert_eq!(fs.remove_file(&path("/"), NOW), Err(Error::IoError));
    assert_eq!(fs.create_file(&path("/f/x"), NOW), Err(Error::IoError));
    assert_eq!(fs.rename(&path("/missing"), &path("/x"), NOW), Err(Error::FileNotFound));
}

#[test]
fn mem_removed_files_live_by_number() {
    let mut fs = with_file("/a");
    fs.write_bytes(&path("/a"), 0, b"data", NOW).unwrap();
    let ino = fs.resolve_inode(&path("/a")).unwrap();
    fs.remove_file(&path("/a"), NOW).unwrap();
    assert_eq!(fs.file_info(&path("/a")).err(), Some(Error::FileNotFound));
    assert_eq!(fs.read_bytes_ino(ino, 0, 4), Ok(b"data".to_vec()));
    assert_eq!(fs.file_size_ino(ino), Ok(4));
    fs.evict_inode(ino).unwrap();
    assert_eq!(fs.read_bytes_ino(ino, 0, 4), Err(Error::Corrupted));
}

#[test]
fn mem_directories_go_with_what_they_hold() {
    let mut fs = Memfs::new(NOW);
    fs.create_dir(&path("/d"), NOW).unwrap();
    fs.create_dir(&path("/d/e"), NOW).unwrap();
    fs.create_file(&path("/d/e/f"), NOW).unwrap();
    let ino = fs.resolve_inode(&path("/d/e/f")).unwrap();
    assert_eq!(fs.remove_dir(&path("/d"), NOW), Ok(()));
    assert_eq!(fs.file_info(&path("/d")).err(), Some(Error::FileNotFound));
    assert!(fs.read_bytes_ino(ino, 0, 1).is_err());
    assert!(fs.list_files(&path("/")).unwrap().is_empty());
}

#[test]
fn mem_files_are_renamed() {
    let mut fs = with_file("/a");
    fs.create_dir(&path("/d"), NOW).unwrap();
    fs.write_bytes(&path("/a"), 0, b"x", NOW).unwrap();
    fs.rename(&path("/a"), &path("/d/b"), NOW).unwrap();
    assert_eq!(fs.read_bytes(&path("/d/b"), 0, 1), Ok(b"x".to_vec()));
    assert_eq!(fs.file_info(&path("/a")).err(), Some(Error::FileNotFound));
}

#[test]
fn mem_links_hold_their_target() {
    let mut fs = with_file("/a");
    fs.write_bytes(&path("/a"), 0, b"via", NOW).unwrap();
    fs.symlink("a", &path("/l"), NOW).unwrap();
    assert_eq!(fs.read_link(&path("/l")), Ok("a".to_string()));
    assert_eq!(fs.read_bytes(&path("/l"), 0, 3), Ok(b"via".to_vec()));
    assert_eq!(fs.read_link(&path("/a")), Err(Error::InvalidArgument));
    assert_eq!(fs.symlink("b", &path("/l"), NOW), Err(Error::InvalidArgument));
    assert_eq!(fs.symlink("", &path("/m"), NOW), Err(Error::InvalidArgument));
}

#[test]
fn mem_links_that_loop_are_given_up() {
    let mut fs = Memfs::new(NOW);
    fs.symlink("b", &path("/a"), NOW).unwrap();
    fs.symlink("a", &path("/b"), NOW).unwrap();
    assert_eq!(fs.file_info(&path("/a")).err(), Some(Error::TooManyLinks));
}

#[test]
fn mem_truncation_cuts_and_zeros() {
    let mut fs = with_file("/a");
    fs.write_bytes(&path("/a"), 0, b"abcdef", NOW).unwrap();
    fs.truncate(&path("/a"), 2, NOW).unwrap();
    assert_eq!(fs.read_bytes(&path("/a"), 0, 9), Ok(b"ab".to_vec()));
    fs.truncate(&path("/a"), 4, NOW).unwrap();
    assert_eq!(fs.read_bytes(&path("/a"), 0, 9), Ok(b"ab\0\0".to_vec()));
}

#[test]
fn mem_pages_are_filled_with_what_was_flushed() {
    let mut fs = with_file("/a");
    let ino = fs.resolve_inode(&path("/a")).unwrap();
    fs.update_size(ino, 5000, NOW).unwrap();
    let page = vec![7u8; 4096];
    fs.flush_page(ino, 1, &page).unwrap();
    let (got, n) = fs.fill_page(ino, 1).unwrap();
    assert_eq!(n, 904);
    assert_eq!(&got[..904], &page[..904]);
    assert_eq!(got.len(), 4096);
    assert_eq!(fs.fill_page(99, 0).err(), Some(Error::Corrupted));
}

#[test]
fn mem_times_are_set() {
    let mut fs = with_file("/a");
    fs.set_times(&path("/a"), None, Some(NOW + 86_400), NOW).unwrap();
    let f = fs.file_info(&path("/a")).unwrap();
    assert_eq!(f.modified, Some(FileTime::from_unix_secs(NOW + 86_400)));
    assert_eq!(f.accessed, Some(FileTime::from_unix_secs(NOW)));
}

#[test]
fn mem_statistics_and_defaults() {
    let mut fs = Memfs::new(NOW);
    let s = fs.statfs().unwrap();
    assert_eq!(s.fs_type, "memfs");
    assert_eq!(&s.volume_name[..4], b"tmp\0");
    assert_eq!(fs.ioctl(&path("/"), 1, 2, 0), Err(Error::IoError));
    assert_eq!(fs.create_fifo(&path("/p"), NOW), Err(Error::Unsupported));
    assert_eq!(fs.link_escape(&path("/p"), LinkMode::Follow), Err(Error::Unsupported));
    assert_eq!(fs.flush(), Ok(()));
}

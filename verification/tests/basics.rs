use edos_fs::bytes::{bytes_eq, checksum, get_u16, get_u32, get_u64, push_u16, push_u32, push_u64, put_u16, sub_vec, write_at, zero_vec};
use edos_fs::order::{path_less, text_less};
use edos_fs::path::{is_dot, is_dotdot, splice_symlink, Path};
use edos_fs::sorted::{SortedMap, SortedSet};
use edos_fs::text::{encode_utf16, eq_ignore_ascii_case, is_white, lower_vec, push_decimal, trim};
use edos_fs::types::{days_since_epoch, DateTime, File, FileKind, FileTime, MmapRegion, PollState};

fn path(s: &str) -> Path {
    Path::parse(s).unwrap()
}

#[test]
fn crc_of_the_check_string() {
    assert_eq!(checksum(b"123456789"), 0xCBF4_3926);
    assert_eq!(checksum(b""), 0);
}

#[test]
fn integers_round_trip() {
    let mut v: Vec<u8> = Vec::new();
    push_u16(&mut v, 0x1234);
    push_u32(&mut v, 0xDEAD_BEEF);
    push_u64(&mut v, 0x0102_0304_0506_0708);
    assert_eq!(v[0], 0x34);
    assert_eq!(get_u16(&v, 0), 0x1234);
    assert_eq!(get_u32(&v, 2), 0xDEAD_BEEF);
    assert_eq!(get_u64(&v, 6), 0x0102_0304_0506_0708);
    put_u16(&mut v, 0, 0xABCD);
    assert_eq!(get_u16(&v, 0), 0xABCD);
}

#[test]
fn slices_of_bytes() {
    let mut v = zero_vec(6);
    write_at(&mut v, 2, &[7, 8]);
    assert_eq!(v, vec![0, 0, 7, 8, 0, 0]);
    assert_eq!(sub_vec(&v, 1, 4), vec![0, 7, 8]);
    assert!(bytes_eq(&v, &[0, 0, 7, 8, 0, 0]));
    assert!(!bytes_eq(&v, &[0, 0, 7, 8, 0]));
}

#[test]
fn paths_are_split_and_shown() {
    let p = path("/usr//lib/");
    assert_eq!(p.display(), "/usr/lib");
    assert_eq!(p.component_count(), 2);
    assert_eq!(p.filename(), "lib");
    assert_eq!(p.last_component(), Some("lib"));
    assert!(Path::root().is_root());
    assert_eq!(Path::root().display(), "/");
    assert_eq!(Path::root().last_component(), None);
}

#[test]
fn paths_are_normalized() {
    assert_eq!(path("/a/./b/../c").normalize().display(), "/a/c");
    assert_eq!(path("/../..").normalize().display(), "/");
    assert!(is_dot("."));
    assert!(!is_dot(".."));
    assert!(is_dotdot(".."));
}

#[test]
fn normalizing_twice_is_normalizing_once() {
    let p = path("/a/../b/./c/..").normalize();
    assert!(p.same(&p.normalize()));
}

#[test]
fn paths_have_prefixes_and_parents() {
    let p = path("/mnt/disk/file");
    let m = path("/mnt/disk");
    assert!(p.starts_with(&m));
    assert!(!path("/mnt/diskette").starts_with(&m));
    assert_eq!(p.strip_prefix(&m).display(), "/file");
    assert_eq!(path("/other").strip_prefix(&m).display(), "/other");
    assert!(p.parent().unwrap().same(&m));
    assert!(Path::root().parent().is_none());
    assert!(Path::root().parent_or_root().is_root());
    assert!(m.is_direct_parent(&p));
    assert!(!path("/mnt").is_direct_parent(&p));
    assert_eq!(m.join("file").display(), "/mnt/disk/file");
}

#[test]
fn symlinks_are_spliced() {
    let prefix = vec!["a".to_string(), "b".to_string()];
    let rest = vec!["x".to_string()];
    assert_eq!(splice_symlink(&prefix, "../c", &rest), vec!["a", "c", "x"]);
    assert_eq!(splice_symlink(&prefix, "/c", &rest), vec!["c", "x"]);
}

#[test]
fn paths_are_ordered_by_their_components() {
    assert!(text_less("a", "b"));
    assert!(text_less("a", "aa"));
    assert!(!text_less("b", "a"));
    assert!(!text_less("a", "a"));
    assert!(path_less(&path("/a"), &path("/a/b")));
    assert!(path_less(&path("/a/b"), &path("/b")));
    assert!(!path_less(&path("/b"), &path("/a/b")));
}

#[test]
fn sets_keep_their_order() {
    let mut s = SortedSet::new();
    assert!(s.is_empty());
    assert!(s.insert(5));
    assert!(s.insert(1));
    assert!(!s.insert(5));
    assert_eq!(s.len(), 2);
    assert_eq!(s.listed(), vec![1, 5]);
    assert!(s.contains(5));
    assert!(s.remove(5));
    assert!(!s.remove(5));
    let mut t = SortedSet::new();
    t.insert(9);
    t.insert(1);
    s.add_all(&t);
    assert_eq!(s.len(), 2);
    assert_eq!(s.listed(), vec![1, 9]);
}

#[test]
fn maps_keep_their_order() {
    let mut m: SortedMap<u8> = SortedMap::new();
    m.insert(7, 70);
    m.insert(3, 30);
    m.insert(7, 71);
    assert_eq!(m.len(), 2);
    assert_eq!(m.keys(), vec![3, 7]);
    assert_eq!(m.get(7), Some(&71));
    assert_eq!(m.get(3), Some(&30));
    assert!(m.contains_key(7));
    assert_eq!(m.remove(7), Some(71));
    assert_eq!(m.remove(7), None);
}

#[test]
fn text_is_compared_and_trimmed() {
    assert!(eq_ignore_ascii_case("ReadMe", "README"));
    assert!(!eq_ignore_ascii_case("ReadMe", "READ"));
    assert_eq!(lower_vec(b"AbC1"), b"abc1".to_vec());
    assert_eq!(trim("  a b\t\n"), "a b");
    assert!(is_white(' '));
    assert!(!is_white('x'));
    let mut s = String::new();
    push_decimal(&mut s, 1204);
    push_decimal(&mut s, 0);
    assert_eq!(s, "12040");
}

#[test]
fn text_is_encoded_as_utf16() {
    assert_eq!(encode_utf16("A\u{e9}"), vec![0x41, 0xe9]);
    assert_eq!(encode_utf16("\u{1F600}"), vec![0xD83D, 0xDE00]);
}

#[test]
fn poll_flags_round_trip() {
    let mut s = PollState::with_readable();
    assert_eq!(s.to_bits(), 1);
    s.merge(PollState { readable: false, writable: true, error: false, hangup: true, invalid: false });
    assert_eq!(s.to_bits(), 11);
    assert_eq!(PollState::from_bits(11), s);
    assert!(s.matches(PollState::none()));
    assert!(!PollState::none().matches(PollState::none()));
    assert!(!PollState::with_readable().matches(PollState::from_bits(2)));
}

#[test]
fn times_are_packed() {
    let t = FileTime::from_unix_secs(946_684_800);
    assert_eq!(t.date, (20 << 9) | (1 << 5) | 1);
    assert_eq!(t.time, 0);
    let d = t.to_datetime().unwrap();
    assert_eq!((d.year, d.month, d.day), (2000, 1, 1));
    assert_eq!(d.to_unix_secs(), 946_684_800);
    assert_eq!(days_since_epoch(1970, 1, 1), 0);
    assert_eq!(days_since_epoch(2000, 3, 1), 11017);
}

#[test]
fn times_before_1980_land_on_the_first_instant() {
    let t = FileTime::from_unix_secs(0);
    assert_eq!(t.date, (1 << 5) | 1);
    assert_eq!(t.time, 0);
    assert_eq!(FileTime { date: 0, time: 5, tenth: 0 }.to_datetime(), None);
}

#[test]
fn odd_seconds_are_rounded_down() {
    let d = DateTime { year: 2024, month: 2, day: 29, hour: 23, min: 59, sec: 59, tenth: 0 };
    let t = d.to_file_time();
    assert_eq!(t.date, (44 << 9) | (2 << 5) | 29);
    assert_eq!(t.time, (23 << 11) | (59 << 5) | 29);
    assert_eq!(t.to_datetime().unwrap().sec, 58);
}

#[test]
fn made_up_directories_and_regions() {
    let f = File::synthetic_dir("dev".to_string());
    assert_eq!(f.name, "dev");
    assert_eq!(f.kind, FileKind::Directory);
    assert_eq!(f.size, 0);
    let m = MmapRegion::new(0x1000, 4096);
    assert!(!m.writable && !m.cacheable);
}

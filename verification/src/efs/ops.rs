//! The driver as a file system: operations on paths.
use vstd::prelude::*;
use crate::block_device::PageWrite;
use crate::bytes::{copy_vec, sub_vec, write_at};
use crate::error::Error;
use crate::page_cache::PageCacheOps;
use crate::filesystem::FileSystem;
use crate::journal;
use crate::journal::ring;
use crate::path;
use crate::path::{copy_names, is_dot, is_dotdot, splice_symlink, Path};
use crate::text::string_from_utf8;
use crate::types;
use crate::types::{File, FileAttrs, FileKind, FileTime, LinkMode, StatFs};
use super::dirent;
use super::dirent::DirEntry;
use super::dirmodel;
use super::dirmodel::WalkView;
use super::datalog;
use super::dir;
use super::driver::{concluded, concluded_staged, concluded_with, merged, settled, settled_staged, settled_with, EfsDriver};
use super::layout;
use super::layout::{checksum_inode, EfsInode, InodeView, EFS_ROOT_INO, FT_FIFO, FT_REG_FILE, FT_SYMLINK, INODE_DATA_AREA_SIZE, INODE_FLAG_INLINE_DATA, S_IFDIR, S_IFIFO, S_IFLNK, S_IFMT, S_IFREG};
use super::model;
use super::mount;

verus! {

broadcast use crate::block_device::writing;

/// Where a path walk stopped.
pub enum Walk {
    Node(u64, EfsInode),
    /// A symbolic link leads to another path.
    Escaped(Vec<String>),
}

/// A walk seen through its view.
pub open spec fn walk_of(r: Result<Walk, Error>) -> Result<WalkView, Error> {
    match r {
        Ok(Walk::Node(ino, i)) => Ok(WalkView::Node(ino, i@)),
        Ok(Walk::Escaped(cs)) => Ok(WalkView::Escaped(path::names(cs@))),
        Err(e) => Err(e),
    }
}

/// A resolved path seen through its view.
pub open spec fn node_of(r: Result<(u64, EfsInode), Error>) -> Result<(u64, InodeView), Error> {
    match r {
        Ok((ino, i)) => Ok((ino, i@)),
        Err(e) => Err(e),
    }
}

/// Longest name an entry can have, in bytes.
pub const MAX_NAME: usize = 255;

/// A new inode of the given mode and flags.
pub fn new_inode(mode: u16, flags: u32, now: u64) -> (i: EfsInode)
    ensures
        i.wf(),
        i@ == dirmodel::new_inode(mode, flags, now),
{
    let mut i = EfsInode::new(mode, (now, 0));
    i.flags = flags;
    checksum_inode(&mut i);
    i
}

/// The target of a symbolic link, which its inode holds inline.
pub fn symlink_target(inode: &EfsInode) -> (r: Result<String, Error>)
    requires
        inode.wf(),
    ensures
        types::text_of(r) == dirmodel::symlink_target(inode@),
{
    if inode.flags & INODE_FLAG_INLINE_DATA == 0 || inode.size > INODE_DATA_AREA_SIZE as u64 {
        return Err(Error::Corrupted);
    }
    let b = sub_vec(inode.data_area.as_slice(), 0, inode.size as usize);
    assert(b@ =~= inode@.data_area.take(inode.size as int));
    match string_from_utf8(b) {
        Some(s) => Ok(s),
        None => Err(Error::Corrupted),
    }
}

/// What is said of a file with this name and inode.
pub fn inode_to_file(name: String, inode: &EfsInode) -> (f: File)
    ensures
        f@ == dirmodel::file_of(name@, inode@),
{
    let k: u16 = inode.mode & S_IFMT;
    let kind = if k == S_IFDIR {
        FileKind::Directory
    } else if k == S_IFREG {
        FileKind::File
    } else if k == S_IFLNK {
        FileKind::Symlink
    } else if k == S_IFIFO {
        FileKind::Fifo
    } else {
        FileKind::Special
    };
    File {
        name,
        kind,
        size: inode.size,
        attrs: FileAttrs::none(),
        created: Some(FileTime::from_unix_secs(inode.ctime_sec)),
        accessed: Some(FileTime::from_unix_secs(inode.atime_sec)),
        modified: Some(FileTime::from_unix_secs(inode.mtime_sec)),
    }
}

fn is_occupied(es: &Vec<DirEntry>) -> (r: bool)
    ensures
        r == dirmodel::occupied(dirent::views(es@)),
{
    let ghost vs = dirent::views(es@);
    let mut k: usize = 0;
    while k < es.len()
        invariant
            k <= es@.len(),
            vs == dirent::views(es@),
            forall|j: int|
                0 <= j < k ==> (#[trigger] vs[j]).name == path::dot() || vs[j].name
                    == path::dotdot(),
        decreases es@.len() - k,
    {
        let n = es[k].name.as_str();
        if !is_dot(n) && !is_dotdot(n) {
            assert(vs[k as int].name == n@);
            return true;
        }
        assert(vs[k as int].name == n@);
        k = k + 1;
    }
    false
}

// ---- Resolution -----------------------------------------------------------------------

impl EfsDriver {
    /// Walks a path from the root.
    pub fn resolve_path_walk(&mut self, p: &Path, follow: bool) -> (r: Result<Walk, Error>)
        requires
            old(self).wf(),
        ensures
            final(self).wf(),
            final(self)@ == old(self)@,
            final(self).untouched(old(self)),
            walk_of(r) == dirmodel::walk_path(old(self)@, p@, follow),
            r matches Ok(Walk::Node(_, i)) ==> i.wf(),
    {
        proof {
            reveal(dirmodel::walk_path);
        }
        let cs = p.components();
        let mut at: u64 = EFS_ROOT_INO;
        let mut k: usize = 0;
        while k < cs.len()
            invariant
                self.wf(),
                self@ == old(self)@,
                self.untouched(old(self)),
                path::names(cs@) == p@,
                cs@.len() == p@.len(),
                k <= cs@.len(),
                dirmodel::walk_path(old(self)@, p@, follow) == dirmodel::walk(
                    old(self)@,
                    p@,
                    follow,
                    k as int,
                    at,
                ),
            decreases cs@.len() - k,
        {
            assert(p@[k as int] == cs@[k as int]@);
            let ino: u64 = match self.lookup_in_dir(at, cs[k].as_str().as_bytes()) {
                Err(e) => return Err(e),
                Ok(None) => return Err(Error::FileNotFound),
                Ok(Some((ino, _))) => ino,
            };
            let inode = match self.read_inode(ino) {
                Ok(i) => i,
                Err(e) => return Err(e),
            };
            if inode.mode & S_IFMT == S_IFLNK && (cs.len() - k > 1 || follow) {
                let target = match symlink_target(&inode) {
                    Ok(t) => t,
                    Err(e) => return Err(e),
                };
                let before = copy_names(cs, 0, k);
                let after = copy_names(cs, k + 1, cs.len());
                assert(path::names(before@) =~= p@.take(k as int));
                assert(path::names(after@) =~= p@.skip(k + 1));
                return Ok(
                    Walk::Escaped(
                        splice_symlink(before.as_slice(), target.as_str(), after.as_slice()),
                    ),
                );
            }
            at = ino;
            k = k + 1;
        }
        match self.read_inode(at) {
            Ok(i) => Ok(Walk::Node(at, i)),
            Err(e) => Err(e),
        }
    }

    /// The inode a path names.
    pub fn resolve_path_inode(&mut self, p: &Path, follow: bool) -> (r: Result<
        (u64, EfsInode),
        Error,
    >)
        requires
            old(self).wf(),
        ensures
            final(self).wf(),
            final(self)@ == old(self)@,
            final(self).untouched(old(self)),
            node_of(r) == dirmodel::resolve(old(self)@, p@, follow),
            r matches Ok((_, i)) ==> i.wf(),
    {
        match self.resolve_path_walk(p, follow) {
            Ok(Walk::Node(ino, i)) => Ok((ino, i)),
            Ok(Walk::Escaped(_)) => Err(Error::LinkEscape),
            Err(e) => Err(e),
        }
    }

    /// The directory that holds the last component of a path.
    fn resolve_parent(&mut self, p: &Path) -> (r: Result<u64, Error>)
        requires
            old(self).wf(),
        ensures
            final(self).wf(),
            final(self)@ == old(self)@,
            final(self).untouched(old(self)),
            r == dirmodel::resolve_parent(old(self)@, p@),
    {
        let parent = p.parent_or_root();
        match self.resolve_path_inode(&parent, true) {
            Ok((ino, _)) => Ok(ino),
            Err(e) => Err(e),
        }
    }

    fn make_target(&mut self, p: &Path, on_root: Error) -> (r: Result<u64, Error>)
        requires
            old(self).wf(),
        ensures
            final(self).wf(),
            final(self)@ == old(self)@,
            final(self).untouched(old(self)),
            r == dirmodel::make_target(old(self)@, p@, on_root),
    {
        if p.component_count() == 0 {
            return Err(on_root);
        }
        let parent: u64 = match self.resolve_parent(p) {
            Ok(i) => i,
            Err(e) => return Err(e),
        };
        match self.read_inode(parent) {
            Ok(i) => if i.mode & S_IFMT != S_IFDIR {
                Err(Error::NotADir)
            } else {
                Ok(parent)
            },
            Err(e) => Err(e),
        }
    }

    fn make_fresh(&mut self, p: &Path, name: &[u8], on_root: Error, taken: Error) -> (r: Result<
        u64,
        Error,
    >)
        requires
            old(self).wf(),
            p@.len() > 0 ==> name@ == dirmodel::last_name(p@),
        ensures
            final(self).wf(),
            final(self)@ == old(self)@,
            final(self).untouched(old(self)),
            r == dirmodel::make_fresh(old(self)@, p@, on_root, taken),
    {
        let parent: u64 = match self.make_target(p, on_root) {
            Ok(i) => i,
            Err(e) => return Err(e),
        };
        match self.lookup_in_dir(parent, name) {
            Err(e) => Err(e),
            Ok(Some(_)) => Err(taken),
            Ok(None) => Ok(parent),
        }
    }
}

/// The bytes of the last component of a path, none for the root.
fn last_name(p: &Path) -> (r: Vec<u8>)
    ensures
        p@.len() > 0 ==> r@ == dirmodel::last_name(p@),
{
    match p.last_component() {
        Some(s) => copy_vec(s.as_bytes()),
        None => Vec::new(),
    }
}

/// The name a file is described under: the last component, or a slash for the root.
pub open spec fn described_name(cs: Seq<Seq<char>>) -> Seq<char> {
    if path::root_path(cs) {
        seq!['/']
    } else {
        cs.last()
    }
}

fn describe_name(p: &Path) -> (r: String)
    ensures
        r@ == described_name(p@),
{
    proof {
        reveal_strlit("/");
        assert("/"@ =~= seq!['/']);
    }
    if p.is_root() {
        return "/".to_owned();
    }
    match p.last_component() {
        Some(s) => s.to_owned(),
        None => "/".to_owned(),
    }
}

/// What writing to the inode a path names does.
pub open spec fn write_at_node(
    st: model::FsState,
    node: Result<(u64, InodeView), Error>,
    offset: int,
    data: Seq<u8>,
    now: u64,
) -> (model::FsState, Result<u64, Error>) {
    match node {
        Err(e) => (st, Err(e)),
        Ok((ino, i)) => if i.kind() != S_IFREG {
            (st, Err(Error::NotAFile))
        } else if offset + data.len() > usize::MAX {
            (st, Err(Error::InvalidArgument))
        } else {
            model::finish(model::write_file_data(model::begin(st), ino, offset, data, now))
        },
    }
}

/// What reading from the inode a path names gives.
pub open spec fn read_at_node(
    st: model::FsState,
    node: Result<(u64, InodeView), Error>,
    offset: int,
    count: int,
) -> Result<Seq<u8>, Error> {
    match node {
        Err(e) => Err(e),
        Ok((ino, i)) => if i.kind() != S_IFREG {
            Err(Error::NotAFile)
        } else {
            model::read_file_data(st, i, offset, count)
        },
    }
}

/// What creating an entry does, given where it goes.
pub open spec fn create_at(
    st: model::FsState,
    parent: Result<u64, Error>,
    name: Seq<u8>,
    i: InodeView,
    file_type: u8,
    now: u64,
) -> (model::FsState, Result<(), Error>) {
    match parent {
        Err(e) => (st, Err(e)),
        Ok(p) => if name.len() > MAX_NAME {
            (st, Err(Error::InvalidArgument))
        } else {
            model::finish(
                dirmodel::create_entry(model::begin(st), p, name, i, file_type, now),
            )
        },
    }
}

/// What creating a directory does, given where it goes.
pub open spec fn create_dir_at(
    st: model::FsState,
    parent: Result<u64, Error>,
    name: Seq<u8>,
    now: u64,
) -> (model::FsState, Result<(), Error>) {
    match parent {
        Err(e) => (st, Err(e)),
        Ok(p) => if name.len() > MAX_NAME {
            (st, Err(Error::InvalidArgument))
        } else {
            model::finish(dirmodel::create_dir(model::begin(st), p, name, now))
        },
    }
}

/// What removing a file does.
pub open spec fn remove_file_at(st: model::FsState, cs: Seq<Seq<char>>, now: u64) -> (
    model::FsState,
    Result<(), Error>,
) {
    if cs.len() == 0 {
        (st, Err(Error::IoError))
    } else {
        match dirmodel::resolve_parent(st, cs) {
            Err(e) => (st, Err(e)),
            Ok(parent) => match dirmodel::resolve(st, cs, false) {
                Err(e) => (st, Err(e)),
                Ok((ino, i)) => if i.kind() != S_IFREG && i.kind() != S_IFLNK && i.kind()
                    != S_IFIFO {
                    (st, Err(Error::NotAFile))
                } else {
                    model::finish(
                        dirmodel::remove_file(
                            model::begin(st),
                            parent,
                            ino,
                            i,
                            dirmodel::last_name(cs),
                            now,
                        ),
                    )
                },
            },
        }
    }
}

/// What removing a directory does.
pub open spec fn remove_dir_at(st: model::FsState, cs: Seq<Seq<char>>, now: u64) -> (
    model::FsState,
    Result<(), Error>,
) {
    if cs.len() == 0 {
        (st, Err(Error::IoError))
    } else {
        match dirmodel::resolve_parent(st, cs) {
            Err(e) => (st, Err(e)),
            Ok(parent) => match dirmodel::resolve(st, cs, false) {
                Err(e) => (st, Err(e)),
                Ok((ino, i)) => if i.kind() != S_IFDIR {
                    (st, Err(Error::NotADir))
                } else {
                    match dirmodel::read_dir_entries(st, ino) {
                        Err(e) => (st, Err(e)),
                        Ok(es) => if dirmodel::occupied(es) {
                            (st, Err(Error::IoError))
                        } else if ino == 0 {
                            (st, Err(Error::Corrupted))
                        } else {
                            model::finish(
                                dirmodel::remove_dir(
                                    model::begin(st),
                                    parent,
                                    ino,
                                    i,
                                    dirmodel::last_name(cs),
                                    now,
                                ),
                            )
                        },
                    }
                },
            },
        }
    }
}

/// What renaming does.
pub open spec fn rename_at(
    st: model::FsState,
    from: Seq<Seq<char>>,
    to: Seq<Seq<char>>,
    now: u64,
) -> (model::FsState, Result<(), Error>) {
    if from.len() == 0 || to.len() == 0 {
        (st, Err(Error::IoError))
    } else {
        match dirmodel::resolve_parent(st, from) {
            Err(e) => (st, Err(e)),
            Ok(a) => match dirmodel::resolve_parent(st, to) {
                Err(e) => (st, Err(e)),
                Ok(b) => match dirmodel::resolve(st, from, false) {
                    Err(e) => (st, Err(e)),
                    Ok((ino, i)) => if dirmodel::last_name(to).len() > MAX_NAME {
                        (st, Err(Error::InvalidArgument))
                    } else {
                        model::finish(
                            dirmodel::rename(
                                model::begin(st),
                                a,
                                b,
                                ino,
                                i,
                                dirmodel::last_name(from),
                                dirmodel::last_name(to),
                                now,
                            ),
                        )
                    },
                },
            },
        }
    }
}

/// What setting a file's size does.
pub open spec fn truncate_at(st: model::FsState, cs: Seq<Seq<char>>, size: u64, now: u64) -> (
    model::FsState,
    Result<(), Error>,
) {
    match dirmodel::resolve(st, cs, true) {
        Err(e) => (st, Err(e)),
        Ok((ino, i)) => if i.kind() != S_IFREG {
            (st, Err(Error::NotAFile))
        } else {
            model::finish(model::truncate(model::begin(st), ino, size, now))
        },
    }
}

/// What setting a file's times does.
pub open spec fn set_times_at(
    st: model::FsState,
    cs: Seq<Seq<char>>,
    atime: Option<u64>,
    mtime: Option<u64>,
    now: u64,
) -> (model::FsState, Result<(), Error>) {
    match dirmodel::resolve(st, cs, true) {
        Err(e) => (st, Err(e)),
        Ok((ino, _)) => match model::read_inode(st, ino) {
            Err(e) => (st, Err(e)),
            Ok(i) => model::finish(
                model::write_inode(
                    model::begin(st),
                    ino,
                    layout::stamped(
                        InodeView {
                            atime_sec: match atime {
                                Some(s) => s,
                                None => i.atime_sec,
                            },
                            atime_nsec: if atime is Some {
                                0
                            } else {
                                i.atime_nsec
                            },
                            mtime_sec: match mtime {
                                Some(s) => s,
                                None => i.mtime_sec,
                            },
                            mtime_nsec: if mtime is Some {
                                0
                            } else {
                                i.mtime_nsec
                            },
                            ctime_sec: now,
                            ctime_nsec: 0,
                            ..i
                        },
                    ),
                ),
            ),
        },
    }
}

/// What evicting an unnamed inode does, within the open transaction.
pub open spec fn evict(st: model::FsState, ino: u64, i: InodeView) -> (
    model::FsState,
    Result<(), Error>,
) {
    match dirmodel::orphan_del(st, ino) {
        (st1, Err(e)) => (st1, Err(e)),
        (st1, Ok(_)) => dirmodel::free_file_storage(st1, ino, i),
    }
}

impl EfsDriver {
    fn evict_inner(&mut self, ino: u64, inode: &EfsInode) -> (r: Result<(), Error>)
        requires
            old(self).wf(),
            inode.wf(),
        ensures
            final(self).wf(),
            final(self).staged_since(old(self)),
            (final(self)@, r) == evict(old(self)@, ino, inode@),
    {
        match self.orphan_del(ino) {
            Ok(_) => self.free_file_storage(ino, inode),
            Err(e) => Err(e),
        }
    }
}

/// The state that a write to the file that was resolved comes to before its transaction ends.
pub open spec fn node_state(
    st: model::FsState,
    node: Result<(u64, InodeView), Error>,
    off: int,
    data: Seq<u8>,
    now: u64,
) -> model::FsState {
    match node {
        Err(_) => st,
        Ok((ino, _)) => model::write_file_data(model::begin(st), ino, off, data, now).0,
    }
}

/// The data writes of a write to the file that was resolved, when it succeeds.
pub open spec fn node_log(
    st: model::FsState,
    node: Result<(u64, InodeView), Error>,
    off: int,
    data: Seq<u8>,
) -> Seq<PageWrite> {
    match node {
        Err(_) => Seq::empty(),
        Ok((ino, _)) => datalog::file_log(model::begin(st), ino, off, data),
    }
}

/// Whether `low` is what writing the metadata and then, if that went well, everything that the
/// journal lets go, makes of `pre`.
pub open spec fn flushed_through(pre: EfsDriver, low: EfsDriver, r: Result<(), Error>) -> bool {
    exists|mid: EfsDriver| #[trigger] dir::flushed_from(pre, mid, low, r)
}

impl FileSystem for EfsDriver {
    open spec fn inv(&self) -> bool {
        self.wf()
    }

    fn list_files(&mut self, path: &Path) -> (r: Result<Vec<File>, Error>)
        ensures
            final(self)@ == old(self)@,
            final(self).untouched(old(self)),
            types::files_of(r) == dirmodel::list_files(old(self)@, path@),
    {
        proof {
            reveal(dirmodel::list_files);
        }
        let p = path.normalize();
        let (ino, _) = match self.resolve_path_inode(&p, true) {
            Ok(x) => x,
            Err(e) => return Err(e),
        };
        let es = match self.read_dir_entries(ino) {
            Ok(es) => es,
            Err(e) => return Err(e),
        };
        let mut out: Vec<File> = Vec::new();
        let mut k: usize = 0;
        let ghost vs = dirent::views(es@);
        assert(types::file_views(out@) =~= Seq::empty());
        while k < es.len()
            invariant
                self.wf(),
                self@ == old(self)@,
                self.untouched(old(self)),
                k <= es@.len(),
                vs == dirent::views(es@),
                dirmodel::list_files(old(self)@, path@) == dirmodel::list_entries(
                    old(self)@,
                    vs,
                    k as int,
                    types::file_views(out@),
                ),
            decreases es@.len() - k,
        {
            let n = es[k].name.as_str();
            assert(vs[k as int] == es@[k as int]@);
            if !is_dot(n) && !is_dotdot(n) {
                let inode = match self.read_inode(es[k].ino) {
                    Ok(i) => i,
                    Err(e) => return Err(e),
                };
                let ghost before = out@;
                let f = inode_to_file(n.to_owned(), &inode);
                out.push(f);
                assert(types::file_views(out@) =~= types::file_views(before).push(f@));
            }
            k = k + 1;
        }
        Ok(out)
    }

    fn read_bytes(&mut self, path: &Path, offset: usize, count: usize) -> (r: Result<
        Vec<u8>,
        Error,
    >)
        ensures
            final(self)@ == old(self)@,
            final(self).untouched(old(self)),
            types::bytes_of(r) == read_at_node(
                old(self)@,
                dirmodel::resolve(old(self)@, path::normalized(path@), true),
                offset as int,
                count as int,
            ),
    {
        let p = path.normalize();
        let (_, inode) = match self.resolve_path_inode(&p, true) {
            Ok(x) => x,
            Err(e) => return Err(e),
        };
        if inode.mode & S_IFMT != S_IFREG {
            return Err(Error::NotAFile);
        }
        self.read_file_data(&inode, offset, count)
    }

    fn file_info(&mut self, path: &Path) -> (r: Result<File, Error>)
        ensures
            final(self)@ == old(self)@,
            final(self).untouched(old(self)),
            types::file_view_of(r) == (match dirmodel::resolve(
                old(self)@,
                path::normalized(path@),
                true,
            ) {
                Err(e) => Err(e),
                Ok((_, i)) => Ok(
                    dirmodel::file_of(described_name(path::normalized(path@)), i),
                ),
            }),
    {
        let p = path.normalize();
        let name = describe_name(&p);
        match self.resolve_path_inode(&p, true) {
            Ok((_, i)) => Ok(inode_to_file(name, &i)),
            Err(e) => Err(e),
        }
    }

    fn file_info_nofollow(&mut self, path: &Path) -> (r: Result<File, Error>)
        ensures
            final(self)@ == old(self)@,
            final(self).untouched(old(self)),
            types::file_view_of(r) == (match dirmodel::resolve(
                old(self)@,
                path::normalized(path@),
                false,
            ) {
                Err(e) => Err(e),
                Ok((_, i)) => Ok(
                    dirmodel::file_of(described_name(path::normalized(path@)), i),
                ),
            }),
    {
        let p = path.normalize();
        let name = describe_name(&p);
        match self.resolve_path_inode(&p, false) {
            Ok((_, i)) => Ok(inode_to_file(name, &i)),
            Err(e) => Err(e),
        }
    }

    fn statfs(&mut self) -> (r: Result<StatFs, Error>)
        ensures
            final(self)@ == old(self)@,
            final(self).untouched(old(self)),
            r matches Ok(s) && s.fs_type@ == "efs"@ && s.block_size == 4096 && s.total_blocks
                == old(self)@.sb.total_blocks && s.free_blocks == old(self)@.sb.free_blocks
                && s.total_inodes == old(self)@.sb.total_inodes && s.free_inodes == old(
                self,
            )@.sb.free_inodes && s.volume_name@ == old(self)@.sb.volume_name && s.version == old(
                self,
            )@.sb.version && s.block_groups == old(self)@.sb.block_group_count,
    {
        Ok(
            StatFs {
                fs_type: "efs",
                block_size: 4096,
                total_blocks: self.superblock.total_blocks,
                free_blocks: self.superblock.free_blocks,
                total_inodes: self.superblock.total_inodes,
                free_inodes: self.superblock.free_inodes,
                volume_name: copy_vec(self.superblock.volume_name.as_slice()),
                version: self.superblock.version,
                block_groups: self.superblock.block_group_count,
            },
        )
    }

    fn resolve_inode(&mut self, path: &Path) -> (r: Result<u64, Error>)
        ensures
            final(self)@ == old(self)@,
            final(self).untouched(old(self)),
            r == (match dirmodel::resolve(old(self)@, path::normalized(path@), true) {
                Err(e) => Err::<u64, Error>(e),
                Ok((ino, _)) => Ok::<u64, Error>(ino),
            }),
    {
        let p = path.normalize();
        match self.resolve_path_inode(&p, true) {
            Ok((ino, _)) => Ok(ino),
            Err(e) => Err(e),
        }
    }

    fn write_bytes(&mut self, path: &Path, offset: usize, data: &[u8], now: u64) -> (r: Result<
        u64,
        Error,
    >)
        ensures
            settled(*old(self), *final(self), r is Ok),
            r is Ok ==> settled_with(
                *old(self),
                *final(self),
                node_state(
                    old(self)@,
                    dirmodel::resolve(old(self)@, path::normalized(path@), true),
                    offset as int,
                    data@,
                    now,
                ),
                node_log(
                    old(self)@,
                    dirmodel::resolve(old(self)@, path::normalized(path@), true),
                    offset as int,
                    data@,
                ),
            ),
            (final(self)@, r) == write_at_node(
                old(self)@,
                dirmodel::resolve(old(self)@, path::normalized(path@), true),
                offset as int,
                data@,
                now,
            ),
    {
        let p = path.normalize();
        let (ino, inode) = match self.resolve_path_inode(&p, true) {
            Ok(x) => x,
            Err(e) => return Err(e),
        };
        if inode.mode & S_IFMT != S_IFREG {
            return Err(Error::NotAFile);
        }
        if data.len() > usize::MAX - offset {
            return Err(Error::InvalidArgument);
        }
        self.begin_tx();
        let r = self.write_file_data(ino, offset, data, now);
        let ghost mid = *self;
        self.end_tx(r.is_ok());
        proof {
            assert(concluded(*old(self), mid, *self, r is Ok));
            if r is Ok {
                assert(concluded_with(
                    *old(self),
                    mid,
                    *self,
                    mid@,
                    datalog::file_log(model::begin(old(self)@), ino, offset as int, data@),
                ));
            }
        }
        r
    }

    fn create_file(&mut self, path: &Path, now: u64) -> (r: Result<(), Error>)
        ensures
            settled_staged(*old(self), *final(self), r is Ok),
            ({
                let cs = path::normalized(path@);
                (final(self)@, r) == create_at(
                    old(self)@,
                    dirmodel::make_target(old(self)@, cs, Error::IoError),
                    dirmodel::last_name(cs),
                    dirmodel::new_file_inode(now),
                    FT_REG_FILE,
                    now,
                )
            }),
    {
        let p = path.normalize();
        let name = last_name(&p);
        let parent: u64 = match self.make_target(&p, Error::IoError) {
            Ok(i) => i,
            Err(e) => return Err(e),
        };
        if name.len() > MAX_NAME {
            return Err(Error::InvalidArgument);
        }
        let inode = new_inode(0x81A4, INODE_FLAG_INLINE_DATA, now);
        self.begin_tx();
        let r = self.create_entry(parent, name.as_slice(), &inode, FT_REG_FILE, now);
        let ghost mid = *self;
        self.end_tx(r.is_ok());
        assert(concluded_staged(*old(self), mid, *self, r is Ok));
        r
    }

    fn create_fifo(&mut self, path: &Path, now: u64) -> (r: Result<(), Error>)
        ensures
            settled_staged(*old(self), *final(self), r is Ok),
            ({
                let cs = path::normalized(path@);
                (final(self)@, r) == create_at(
                    old(self)@,
                    dirmodel::make_fresh(
                        old(self)@,
                        cs,
                        Error::InvalidArgument,
                        Error::AlreadyExists,
                    ),
                    dirmodel::last_name(cs),
                    dirmodel::new_fifo_inode(now),
                    FT_FIFO,
                    now,
                )
            }),
    {
        let p = path.normalize();
        let name = last_name(&p);
        let parent: u64 = match self.make_fresh(
            &p,
            name.as_slice(),
            Error::InvalidArgument,
            Error::AlreadyExists,
        ) {
            Ok(i) => i,
            Err(e) => return Err(e),
        };
        if name.len() > MAX_NAME {
            return Err(Error::InvalidArgument);
        }
        let inode = new_inode(0x11A4, INODE_FLAG_INLINE_DATA, now);
        self.begin_tx();
        let r = self.create_entry(parent, name.as_slice(), &inode, FT_FIFO, now);
        let ghost mid = *self;
        self.end_tx(r.is_ok());
        assert(concluded_staged(*old(self), mid, *self, r is Ok));
        r
    }

    fn create_dir(&mut self, path: &Path, now: u64) -> (r: Result<(), Error>)
        ensures
            settled_staged(*old(self), *final(self), r is Ok),
            ({
                let cs = path::normalized(path@);
                (final(self)@, r) == create_dir_at(
                    old(self)@,
                    dirmodel::make_target(old(self)@, cs, Error::IoError),
                    dirmodel::last_name(cs),
                    now,
                )
            }),
    {
        let p = path.normalize();
        let name = last_name(&p);
        let parent: u64 = match self.make_target(&p, Error::IoError) {
            Ok(i) => i,
            Err(e) => return Err(e),
        };
        if name.len() > MAX_NAME {
            return Err(Error::InvalidArgument);
        }
        self.begin_tx();
        let r = self.create_dir_inner(parent, name.as_slice(), now);
        let ghost mid = *self;
        self.end_tx(r.is_ok());
        assert(concluded_staged(*old(self), mid, *self, r is Ok));
        r
    }

    fn remove_file(&mut self, path: &Path, now: u64) -> (r: Result<(), Error>)
        ensures
            settled_staged(*old(self), *final(self), r is Ok),
            (final(self)@, r) == remove_file_at(old(self)@, path::normalized(path@), now),
    {
        let p = path.normalize();
        if p.component_count() == 0 {
            return Err(Error::IoError);
        }
        let name = last_name(&p);
        let parent: u64 = match self.resolve_parent(&p) {
            Ok(i) => i,
            Err(e) => return Err(e),
        };
        let (ino, inode) = match self.resolve_path_inode(&p, false) {
            Ok(x) => x,
            Err(e) => return Err(e),
        };
        let k: u16 = inode.mode & S_IFMT;
        if k != S_IFREG && k != S_IFLNK && k != S_IFIFO {
            return Err(Error::NotAFile);
        }
        self.begin_tx();
        let r = self.remove_file_inner(parent, ino, &inode, name.as_slice(), now);
        let ghost mid = *self;
        self.end_tx(r.is_ok());
        assert(concluded_staged(*old(self), mid, *self, r is Ok));
        r
    }

    fn remove_dir(&mut self, path: &Path, now: u64) -> (r: Result<(), Error>)
        ensures
            settled_staged(*old(self), *final(self), r is Ok),
            (final(self)@, r) == remove_dir_at(old(self)@, path::normalized(path@), now),
    {
        let p = path.normalize();
        if p.component_count() == 0 {
            return Err(Error::IoError);
        }
        let name = last_name(&p);
        let parent: u64 = match self.resolve_parent(&p) {
            Ok(i) => i,
            Err(e) => return Err(e),
        };
        let (ino, inode) = match self.resolve_path_inode(&p, false) {
            Ok(x) => x,
            Err(e) => return Err(e),
        };
        if inode.mode & S_IFMT != S_IFDIR {
            return Err(Error::NotADir);
        }
        let es = match self.read_dir_entries(ino) {
            Ok(es) => es,
            Err(e) => return Err(e),
        };
        if is_occupied(&es) {
            return Err(Error::IoError);
        }
        if ino == 0 {
            return Err(Error::Corrupted);
        }
        self.begin_tx();
        let r = self.remove_dir_inner(parent, ino, &inode, name.as_slice(), now);
        let ghost mid = *self;
        self.end_tx(r.is_ok());
        assert(concluded_staged(*old(self), mid, *self, r is Ok));
        r
    }

    /// Writes the metadata out, then everything that the journal lets go.
    fn flush(&mut self) -> (r: Result<(), Error>)
        ensures
            (final(self)@, r) == model::finish(
                dirmodel::flush_metadata(model::begin(old(self)@)),
            ),
            exists|low: EfsDriver|
                flushed_through(*old(self), low, r) && #[trigger] merged(
                    low,
                    *final(self),
                    r is Ok,
                ),
    {
        self.begin_tx();
        let ghost start = *self;
        let r = self.flush_inner();
        let ghost low = *self;
        proof {
            let mid = choose|mid: EfsDriver| #[trigger] dir::flushed_from(start, mid, low, r);
            assert(mid.staged_within(old(self)));
            assert(dir::flushed_from(*old(self), mid, low, r));
        }
        self.end_tx(r.is_ok());
        assert(merged(low, *self, r is Ok));
        r
    }

    fn truncate(&mut self, path: &Path, size: u64, now: u64) -> (r: Result<(), Error>)
        ensures
            settled_staged(*old(self), *final(self), r is Ok),
            (final(self)@, r) == truncate_at(old(self)@, path::normalized(path@), size, now),
    {
        let p = path.normalize();
        let (ino, inode) = match self.resolve_path_inode(&p, true) {
            Ok(x) => x,
            Err(e) => return Err(e),
        };
        if inode.mode & S_IFMT != S_IFREG {
            return Err(Error::NotAFile);
        }
        self.begin_tx();
        let r = self.truncate_inner(ino, size, now);
        let ghost mid = *self;
        self.end_tx(r.is_ok());
        assert(concluded_staged(*old(self), mid, *self, r is Ok));
        r
    }

    fn rename(&mut self, old_path: &Path, new_path: &Path, now: u64) -> (r: Result<(), Error>)
        ensures
            settled_staged(*old(self), *final(self), r is Ok),
            (final(self)@, r) == rename_at(
                old(self)@,
                path::normalized(old_path@),
                path::normalized(new_path@),
                now,
            ),
    {
        let from = old_path.normalize();
        let to = new_path.normalize();
        if from.component_count() == 0 || to.component_count() == 0 {
            return Err(Error::IoError);
        }
        let old_name = last_name(&from);
        let new_name = last_name(&to);
        let a: u64 = match self.resolve_parent(&from) {
            Ok(i) => i,
            Err(e) => return Err(e),
        };
        let b: u64 = match self.resolve_parent(&to) {
            Ok(i) => i,
            Err(e) => return Err(e),
        };
        let (ino, inode) = match self.resolve_path_inode(&from, false) {
            Ok(x) => x,
            Err(e) => return Err(e),
        };
        if new_name.len() > MAX_NAME {
            return Err(Error::InvalidArgument);
        }
        self.begin_tx();
        let r = self.rename_inner(
            a,
            b,
            ino,
            &inode,
            old_name.as_slice(),
            new_name.as_slice(),
            now,
        );
        let ghost mid = *self;
        self.end_tx(r.is_ok());
        assert(concluded_staged(*old(self), mid, *self, r is Ok));
        r
    }

    fn symlink(&mut self, target: &str, path: &Path, now: u64) -> (r: Result<(), Error>)
        ensures
            settled_staged(*old(self), *final(self), r is Ok),
            ({
                let cs = path::normalized(path@);
                let t = vstd::utf8::encode_utf8(target@);
                (final(self)@, r) == (if t.len() == 0 || t.len() > INODE_DATA_AREA_SIZE {
                    (old(self)@, Err(Error::InvalidArgument))
                } else {
                    create_at(
                        old(self)@,
                        dirmodel::make_fresh(
                            old(self)@,
                            cs,
                            Error::InvalidArgument,
                            Error::InvalidArgument,
                        ),
                        dirmodel::last_name(cs),
                        dirmodel::new_symlink_inode(t, now),
                        FT_SYMLINK,
                        now,
                    )
                })
            }),
    {
        let t = target.as_bytes();
        if t.len() == 0 || t.len() > INODE_DATA_AREA_SIZE {
            return Err(Error::InvalidArgument);
        }
        let p = path.normalize();
        let name = last_name(&p);
        let parent: u64 = match self.make_fresh(
            &p,
            name.as_slice(),
            Error::InvalidArgument,
            Error::InvalidArgument,
        ) {
            Ok(i) => i,
            Err(e) => return Err(e),
        };
        if name.len() > MAX_NAME {
            return Err(Error::InvalidArgument);
        }
        let mut inode = new_inode(0xA1FF, INODE_FLAG_INLINE_DATA, now);
        write_at(&mut inode.data_area, 0, t);
        inode.size = t.len() as u64;
        checksum_inode(&mut inode);
        self.begin_tx();
        let r = self.create_entry(parent, name.as_slice(), &inode, FT_SYMLINK, now);
        let ghost mid = *self;
        self.end_tx(r.is_ok());
        assert(concluded_staged(*old(self), mid, *self, r is Ok));
        r
    }

    fn read_link(&mut self, path: &Path) -> (r: Result<String, Error>)
        ensures
            final(self)@ == old(self)@,
            final(self).untouched(old(self)),
            types::text_of(r) == (match dirmodel::resolve(old(self)@, path::normalized(path@), false) {
                Err(e) => Err(e),
                Ok((_, i)) => if i.kind() != S_IFLNK {
                    Err(Error::InvalidArgument)
                } else {
                    dirmodel::symlink_target(i)
                },
            }),
    {
        let p = path.normalize();
        match self.resolve_path_inode(&p, false) {
            Ok((_, i)) => if i.mode & S_IFMT != S_IFLNK {
                Err(Error::InvalidArgument)
            } else {
                symlink_target(&i)
            },
            Err(e) => Err(e),
        }
    }

    fn link_escape(&mut self, path: &Path, mode: LinkMode) -> (r: Result<Vec<String>, Error>)
        ensures
            final(self)@ == old(self)@,
            final(self).untouched(old(self)),
            match dirmodel::walk_path(
                old(self)@,
                path::normalized(path@),
                mode == LinkMode::Follow,
            ) {
                Err(e) => r == Err::<Vec<String>, Error>(e),
                Ok(WalkView::Node(_, _)) => r == Err::<Vec<String>, Error>(Error::Unsupported),
                Ok(WalkView::Escaped(cs)) => r matches Ok(v) && path::names(v@) == cs,
            },
    {
        let p = path.normalize();
        let follow: bool = match mode {
            LinkMode::Follow => true,
            LinkMode::NoFollow => false,
        };
        match self.resolve_path_walk(&p, follow) {
            Ok(Walk::Escaped(cs)) => Ok(cs),
            Ok(Walk::Node(_, _)) => Err(Error::Unsupported),
            Err(e) => Err(e),
        }
    }

    fn set_times(&mut self, path: &Path, atime: Option<u64>, mtime: Option<u64>, now: u64) -> (r:
        Result<(), Error>)
        ensures
            settled_staged(*old(self), *final(self), r is Ok),
            (final(self)@, r) == set_times_at(
                old(self)@,
                path::normalized(path@),
                atime,
                mtime,
                now,
            ),
    {
        let p = path.normalize();
        let (ino, _) = match self.resolve_path_inode(&p, true) {
            Ok(x) => x,
            Err(e) => return Err(e),
        };
        let mut inode = match self.read_inode(ino) {
            Ok(i) => i,
            Err(e) => return Err(e),
        };
        match atime {
            Some(s) => {
                inode.atime_sec = s;
                inode.atime_nsec = 0;
            },
            None => {},
        }
        match mtime {
            Some(s) => {
                inode.mtime_sec = s;
                inode.mtime_nsec = 0;
            },
            None => {},
        }
        inode.ctime_sec = now;
        inode.ctime_nsec = 0;
        checksum_inode(&mut inode);
        self.begin_tx();
        let r = self.write_inode(ino, &inode);
        let ghost mid = *self;
        self.end_tx(r.is_ok());
        assert(concluded_staged(*old(self), mid, *self, r is Ok));
        r
    }

    fn read_bytes_ino(&mut self, ino: u64, offset: usize, count: usize) -> (r: Result<
        Vec<u8>,
        Error,
    >)
        ensures
            final(self)@ == old(self)@,
            final(self).untouched(old(self)),
            types::bytes_of(r) == read_at_node(
                old(self)@,
                match model::read_inode(old(self)@, ino) {
                    Err(e) => Err(e),
                    Ok(i) => Ok((ino, i)),
                },
                offset as int,
                count as int,
            ),
    {
        self.fill_pages_bulk(ino, offset, count)
    }

    fn write_bytes_ino(&mut self, ino: u64, offset: usize, data: &[u8], now: u64) -> (r: Result<
        u64,
        Error,
    >)
        ensures
            settled(*old(self), *final(self), r is Ok),
            r is Ok ==> settled_with(
                *old(self),
                *final(self),
                node_state(
                    old(self)@,
                    match model::read_inode(old(self)@, ino) {
                        Err(e) => Err(e),
                        Ok(i) => Ok((ino, i)),
                    },
                    offset as int,
                    data@,
                    now,
                ),
                node_log(
                    old(self)@,
                    match model::read_inode(old(self)@, ino) {
                        Err(e) => Err(e),
                        Ok(i) => Ok((ino, i)),
                    },
                    offset as int,
                    data@,
                ),
            ),
            (final(self)@, r) == write_at_node(
                old(self)@,
                match model::read_inode(old(self)@, ino) {
                    Err(e) => Err(e),
                    Ok(i) => Ok((ino, i)),
                },
                offset as int,
                data@,
                now,
            ),
    {
        let inode = match self.read_inode(ino) {
            Ok(x) => x,
            Err(e) => return Err(e),
        };
        if inode.mode & S_IFMT != S_IFREG {
            return Err(Error::NotAFile);
        }
        if data.len() > usize::MAX - offset {
            return Err(Error::InvalidArgument);
        }
        self.begin_tx();
        let r = self.write_file_data(ino, offset, data, now);
        let ghost mid = *self;
        self.end_tx(r.is_ok());
        proof {
            assert(concluded(*old(self), mid, *self, r is Ok));
            if r is Ok {
                assert(concluded_with(
                    *old(self),
                    mid,
                    *self,
                    mid@,
                    datalog::file_log(model::begin(old(self)@), ino, offset as int, data@),
                ));
            }
        }
        r
    }

    fn file_size_ino(&mut self, ino: u64) -> (r: Result<u64, Error>)
        ensures
            final(self)@ == old(self)@,
            final(self).untouched(old(self)),
            r == (match model::read_inode(old(self)@, ino) {
                Err(e) => Err::<u64, Error>(e),
                Ok(i) => Ok::<u64, Error>(i.size),
            }),
    {
        match self.read_inode(ino) {
            Ok(i) => Ok(i.size),
            Err(e) => Err(e),
        }
    }

    fn flush_inode(&mut self, ino: u64) -> (r: Result<(), Error>)
        ensures
            exists|mid: EfsDriver| #[trigger]
                mount::committed_from(*old(self), mid) && r == mount::commit_result(
                    *old(self),
                    mid,
                ) && final(self)@ == mid@ && ring::ring_state(
                    final(self).journal,
                    final(self).device,
                ) == (if r is Ok {
                    ring::flushed(ring::ring_state(mid.journal, mid.device))
                } else {
                    ring::ring_state(mid.journal, mid.device)
                }),
    {
        let r = self.commit();
        let ghost mid = *self;
        assert(mount::committed_from(*old(self), mid));
        if r.is_err() {
            return r;
        }
        self.journal.flush_home(&mut self.device);
        proof {
            assert(ring::flushed(ring::ring_state(mid.journal, mid.device)).j.sealed
                == mid.journal@.sealed);
            assert(journal::pending_blocks(self.journal@) =~= journal::pending_blocks(
                mid.journal@,
            ));
            assert(journal::pending_revokes(self.journal@) =~= journal::pending_revokes(
                mid.journal@,
            ));
            assert(self@ =~= mid@);
            assert(mount::committed_from(*old(self), mid));
        }
        Ok(())
    }

    fn evict_inode(&mut self, ino: u64) -> (r: Result<(), Error>)
        ensures
            settled_staged(*old(self), *final(self), r is Ok) || final(self).untouched(old(self)),
            (final(self)@, r) == (match model::read_inode(old(self)@, ino) {
                Err(e) => (old(self)@, Err(e)),
                Ok(i) => if i.kind() != S_IFREG {
                    (old(self)@, Ok(()))
                } else {
                    model::finish(evict(model::begin(old(self)@), ino, i))
                },
            }),
    {
        let inode = match self.read_inode(ino) {
            Ok(x) => x,
            Err(e) => return Err(e),
        };
        if inode.mode & S_IFMT != S_IFREG {
            return Ok(());
        }
        self.begin_tx();
        let r = self.evict_inner(ino, &inode);
        let ghost mid = *self;
        self.end_tx(r.is_ok());
        assert(concluded_staged(*old(self), mid, *self, r is Ok));
        r
    }
}

} // verus!

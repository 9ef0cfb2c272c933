//! Running an operation on a path, however many mounts its symbolic links lead across.
//!
//! A file system resolves paths from its own root and stops at a link that leads out of
//! it. The path is then redirected to where the link leads and the operation runs again
//! there.
use vstd::prelude::*;
use crate::error::Error;
use crate::path;
use crate::path::Path;
use crate::types;
use crate::types::{File, LinkMode, MAX_SYMLINK_HOPS};

verus! {

/// How a path is turned into something to operate on.
#[derive(Debug, Clone, Copy, PartialEq, Eq, Structural)]
pub enum Resolver {
    /// Down to the file.
    Inode,
    /// Down to the mount, for operations whose file need not exist.
    Mount,
    /// Down to the file, or to a mount point.
    Info,
}

/// An operation on a path.
#[derive(Debug, Clone, Copy, PartialEq, Eq, Structural)]
pub enum PathOp {
    ListFiles,
    ReadBytes,
    WriteBytes,
    CreateFile,
    Symlink,
    ReadLink,
    CreateDir,
    RemoveFile,
    RemoveDir,
    FileInfo,
    Flush,
    Ioctl,
    Poll,
    Mmap,
    Truncate,
    SetTimes,
    ResolveInode,
}

impl PathOp {
    /// How the path is turned into something to operate on: making or reading a name
    /// needs the mount alone.
    pub open spec fn spec_resolver(self) -> Resolver {
        if self is CreateFile || self is Symlink || self is ReadLink || self is CreateDir {
            Resolver::Mount
        } else if self is FileInfo {
            Resolver::Info
        } else {
            Resolver::Inode
        }
    }

    /// Whether a link at the end of the path is followed: not by what acts on the name
    /// itself.
    pub open spec fn spec_mode(self) -> LinkMode {
        if self is CreateFile || self is Symlink || self is ReadLink || self is CreateDir
            || self is RemoveFile || self is RemoveDir {
            LinkMode::NoFollow
        } else {
            LinkMode::Follow
        }
    }

    /// How the path is turned into something to operate on.
    pub fn resolver(self) -> (r: Resolver)
        ensures
            r == self.spec_resolver(),
    {
        match self {
            PathOp::CreateFile => Resolver::Mount,
            PathOp::Symlink => Resolver::Mount,
            PathOp::ReadLink => Resolver::Mount,
            PathOp::CreateDir => Resolver::Mount,
            PathOp::FileInfo => Resolver::Info,
            _ => Resolver::Inode,
        }
    }

    /// Whether a link at the end of the path is followed.
    pub fn mode(self) -> (r: LinkMode)
        ensures
            r == self.spec_mode(),
    {
        match self {
            PathOp::CreateFile => LinkMode::NoFollow,
            PathOp::Symlink => LinkMode::NoFollow,
            PathOp::ReadLink => LinkMode::NoFollow,
            PathOp::CreateDir => LinkMode::NoFollow,
            PathOp::RemoveFile => LinkMode::NoFollow,
            PathOp::RemoveDir => LinkMode::NoFollow,
            _ => LinkMode::Follow,
        }
    }
}

/// An operation under way: the path it runs on, and how often it has run.
pub struct LinkWalk {
    pub path: Path,
    pub tries: u32,
}

/// What a run came to.
pub enum LinkEvent {
    /// Nothing is mounted where the path leads.
    Unresolved,
    /// The path leads through a link out of its mount; where to, or why that cannot be
    /// said.
    Escaped(Result<Path, Error>),
    /// It ran.
    Finished,
}

/// What is to be done next.
#[derive(Debug, Clone, Copy, PartialEq, Eq, Structural)]
pub enum LinkAction {
    /// Run the operation on the path.
    Run,
    /// Report what the operation came to.
    Done,
    /// Report the error.
    Fail(Error),
}

/// What a run leads to: the path, the runs so far, and what is next.
pub open spec fn after(p: Seq<Seq<char>>, tries: int, e: LinkEvent) -> (
    Seq<Seq<char>>,
    int,
    LinkAction,
) {
    match e {
        LinkEvent::Unresolved => (p, tries, LinkAction::Fail(Error::FileNotFound)),
        LinkEvent::Finished => (p, tries, LinkAction::Done),
        LinkEvent::Escaped(Err(x)) => (p, tries, LinkAction::Fail(x)),
        LinkEvent::Escaped(Ok(q)) => (
            q@,
            tries + 1,
            if tries + 1 >= MAX_SYMLINK_HOPS {
                LinkAction::Fail(Error::TooManyLinks)
            } else {
                LinkAction::Run
            },
        ),
    }
}

/// What `n` redirections in a row lead to, from `tries` runs on.
pub open spec fn redirected(p: Seq<Seq<char>>, tries: int, to: Seq<Path>, n: int) -> (
    Seq<Seq<char>>,
    int,
    LinkAction,
)
    decreases n,
{
    if n <= 0 {
        (p, tries, LinkAction::Run)
    } else {
        let (q, t, a) = redirected(p, tries, to, n - 1);
        if a == LinkAction::Run {
            after(q, t, LinkEvent::Escaped(Ok(to[n - 1])))
        } else {
            (q, t, a)
        }
    }
}

/// An operation runs on the path it was last redirected to, as long as it was redirected
/// fewer than eight times; the eighth redirection ends it.
pub proof fn eight_redirections_end_it(p: Seq<Seq<char>>, to: Seq<Path>, n: int)
    requires
        0 <= n <= to.len(),
    ensures
        n < MAX_SYMLINK_HOPS ==> redirected(p, 0, to, n) == (
            if n == 0 {
                p
            } else {
                to[n - 1]@
            },
            n,
            LinkAction::Run,
        ),
        n >= MAX_SYMLINK_HOPS ==> redirected(p, 0, to, n).2 == LinkAction::Fail(
            Error::TooManyLinks,
        ),
    decreases n,
{
    if n > 0 {
        eight_redirections_end_it(p, to, n - 1);
    }
}

impl LinkWalk {
    /// Starts an operation on a path. It is to be run at once.
    pub fn with_links(path: &Path) -> (r: LinkWalk)
        ensures
            r.path@ == path@,
            r.tries == 0,
    {
        LinkWalk { path: path.duplicate(), tries: 0 }
    }

    /// Takes in what a run came to.
    pub fn next(&mut self, e: LinkEvent) -> (r: LinkAction)
        requires
            old(self).tries < MAX_SYMLINK_HOPS,
        ensures
            (final(self).path@, final(self).tries as int, r) == after(
                old(self).path@,
                old(self).tries as int,
                e,
            ),
            r == LinkAction::Run ==> final(self).tries < MAX_SYMLINK_HOPS,
    {
        match e {
            LinkEvent::Unresolved => LinkAction::Fail(Error::FileNotFound),
            LinkEvent::Finished => LinkAction::Done,
            LinkEvent::Escaped(r) => match r {
                Err(x) => LinkAction::Fail(x),
                Ok(p) => {
                    self.path = p;
                    self.tries = self.tries + 1;
                    if self.tries >= MAX_SYMLINK_HOPS {
                        LinkAction::Fail(Error::TooManyLinks)
                    } else {
                        LinkAction::Run
                    }
                },
            },
        }
    }
}

/// Whether what an operation came to says that its path leads out of its mount.
pub fn escapes(r: Option<Error>) -> (e: bool)
    ensures
        e == (r == Some(Error::LinkEscape)),
{
    match r {
        Some(x) => x == Error::LinkEscape,
        None => false,
    }
}

/// The name a mount point is shown under.
pub open spec fn mount_name(p: Seq<Seq<char>>) -> Seq<char> {
    if p.len() == 0 {
        seq!['/']
    } else {
        p.last()
    }
}

/// What is said of a mount point, whatever is mounted there.
pub fn mount_point_info(p: &Path) -> (r: File)
    ensures
        r@ == types::synthetic_dir_view(mount_name(p@)),
{
    match p.last_component() {
        Some(name) => File::synthetic_dir(String::from_str(name)),
        None => {
            let name = String::from_str("/");
            proof {
                reveal_strlit("/");
                assert(name@ =~= seq!['/']);
            }
            File::synthetic_dir(name)
        },
    }
}

/// The file a path leads to: the one that was resolved, else the reason why there is
/// none. A path can lead to something that has no file of its own.
pub fn settle_inode(inode: Option<u64>, info: Result<(), Error>) -> (r: Result<u64, Error>)
    ensures
        r == (match inode {
            Some(h) => Ok::<u64, Error>(h),
            None => match info {
                Err(e) => Err(e),
                Ok(_) => Err(Error::FileNotFound),
            },
        }),
{
    match inode {
        Some(h) => Ok(h),
        None => match info {
            Err(e) => Err(e),
            Ok(_) => Err(Error::FileNotFound),
        },
    }
}

} // verus!

//! The interface every file system offers.
use vstd::prelude::*;
use crate::error::Error;
use crate::path::Path;
use crate::types::{File, LinkMode, MmapRegion, PollState, StatFs};

verus! {

/// A mounted file system. Operations that change something take the current time in
/// Unix seconds.
///
/// Operations that not every file system supports have a default that refuses.
pub trait FileSystem: Sized {
    /// What holds of the file system between operations.
    spec fn inv(&self) -> bool;

    /// The files in a directory.
    fn list_files(&mut self, path: &Path) -> (r: Result<Vec<File>, Error>)
        requires
            old(self).inv(),
        ensures
            final(self).inv(),
    ;

    /// Up to `count` bytes at `offset` of a file.
    fn read_bytes(&mut self, path: &Path, offset: usize, count: usize) -> (r: Result<
        Vec<u8>,
        Error,
    >)
        requires
            old(self).inv(),
        ensures
            final(self).inv(),
    ;

    /// What there is to say about a file.
    fn file_info(&mut self, path: &Path) -> (r: Result<File, Error>)
        requires
            old(self).inv(),
        ensures
            final(self).inv(),
    ;

    /// What there is to say about a file, a symbolic link at the end left unfollowed.
    fn file_info_nofollow(&mut self, path: &Path) -> (r: Result<File, Error>)
        requires
            old(self).inv(),
        ensures
            final(self).inv(),
    {
        self.file_info(path)
    }

    /// Statistics.
    fn statfs(&mut self) -> (r: Result<StatFs, Error>)
        requires
            old(self).inv(),
        ensures
            final(self).inv(),
        default_ensures
            r == Err::<StatFs, Error>(Error::Unsupported) && *final(self) == *old(self),
    {
        Err(Error::Unsupported)
    }

    /// The number of the inode a path names; 0 for a file system without inodes.
    fn resolve_inode(&mut self, path: &Path) -> (r: Result<u64, Error>)
        requires
            old(self).inv(),
        ensures
            final(self).inv(),
        default_ensures
            r == Ok::<u64, Error>(0) && *final(self) == *old(self),
    {
        Ok(0)
    }

    /// Writes `data` at `offset` of a file.
    fn write_bytes(&mut self, path: &Path, offset: usize, data: &[u8], now: u64) -> (r: Result<
        u64,
        Error,
    >)
        requires
            old(self).inv(),
        ensures
            final(self).inv(),
    ;

    /// Creates an empty file.
    fn create_file(&mut self, path: &Path, now: u64) -> (r: Result<(), Error>)
        requires
            old(self).inv(),
        ensures
            final(self).inv(),
    ;

    /// Creates an empty directory.
    fn create_dir(&mut self, path: &Path, now: u64) -> (r: Result<(), Error>)
        requires
            old(self).inv(),
        ensures
            final(self).inv(),
    ;

    /// Removes an empty directory.
    fn remove_dir(&mut self, path: &Path, now: u64) -> (r: Result<(), Error>)
        requires
            old(self).inv(),
        ensures
            final(self).inv(),
    ;

    /// Removes a file.
    fn remove_file(&mut self, path: &Path, now: u64) -> (r: Result<(), Error>)
        requires
            old(self).inv(),
        ensures
            final(self).inv(),
    ;

    /// Writes everything out.
    fn flush(&mut self) -> (r: Result<(), Error>)
        requires
            old(self).inv(),
        ensures
            final(self).inv(),
    ;

    /// Sets a file's size.
    fn truncate(&mut self, path: &Path, size: u64, now: u64) -> (r: Result<(), Error>)
        requires
            old(self).inv(),
        ensures
            final(self).inv(),
        default_ensures
            r == Err::<(), Error>(Error::IoError) && *final(self) == *old(self),
    {
        Err(Error::IoError)
    }

    /// Gives a file another path.
    fn rename(&mut self, old_path: &Path, new_path: &Path, now: u64) -> (r: Result<(), Error>)
        requires
            old(self).inv(),
        ensures
            final(self).inv(),
        default_ensures
            r == Err::<(), Error>(Error::IoError) && *final(self) == *old(self),
    {
        Err(Error::IoError)
    }

    /// Creates a FIFO.
    fn create_fifo(&mut self, path: &Path, now: u64) -> (r: Result<(), Error>)
        requires
            old(self).inv(),
        ensures
            final(self).inv(),
        default_ensures
            r == Err::<(), Error>(Error::Unsupported) && *final(self) == *old(self),
    {
        Err(Error::Unsupported)
    }

    /// Creates a symbolic link at `path` holding `target` verbatim.
    fn symlink(&mut self, target: &str, path: &Path, now: u64) -> (r: Result<(), Error>)
        requires
            old(self).inv(),
        ensures
            final(self).inv(),
        default_ensures
            r == Err::<(), Error>(Error::Unsupported) && *final(self) == *old(self),
    {
        Err(Error::Unsupported)
    }

    /// The target of the symbolic link at `path`.
    fn read_link(&mut self, path: &Path) -> (r: Result<String, Error>)
        requires
            old(self).inv(),
        ensures
            final(self).inv(),
        default_ensures
            r == Err::<String, Error>(Error::Unsupported) && *final(self) == *old(self),
    {
        Err(Error::Unsupported)
    }

    /// Where a path leads once the symbolic link that stopped its resolution is
    /// spliced in.
    fn link_escape(&mut self, path: &Path, mode: LinkMode) -> (r: Result<Vec<String>, Error>)
        requires
            old(self).inv(),
        ensures
            final(self).inv(),
        default_ensures
            r == Err::<Vec<String>, Error>(Error::Unsupported) && *final(self) == *old(self),
    {
        Err(Error::Unsupported)
    }

    /// Sets the access and modification times, in whole Unix seconds. `None` leaves a
    /// time stamp as it stands.
    fn set_times(&mut self, path: &Path, atime: Option<u64>, mtime: Option<u64>, now: u64) -> (r:
        Result<(), Error>)
        requires
            old(self).inv(),
        ensures
            final(self).inv(),
        default_ensures
            r == Err::<(), Error>(Error::Unsupported) && *final(self) == *old(self),
    {
        Err(Error::Unsupported)
    }

    /// Like [`FileSystem::read_bytes`], by inode number.
    fn read_bytes_ino(&mut self, ino: u64, offset: usize, count: usize) -> (r: Result<
        Vec<u8>,
        Error,
    >)
        requires
            old(self).inv(),
        ensures
            final(self).inv(),
        default_ensures
            r == Err::<Vec<u8>, Error>(Error::Unsupported) && *final(self) == *old(self),
    {
        Err(Error::Unsupported)
    }

    /// Like [`FileSystem::write_bytes`], by inode number.
    fn write_bytes_ino(&mut self, ino: u64, offset: usize, data: &[u8], now: u64) -> (r: Result<
        u64,
        Error,
    >)
        requires
            old(self).inv(),
        ensures
            final(self).inv(),
        default_ensures
            r == Err::<u64, Error>(Error::Unsupported) && *final(self) == *old(self),
    {
        Err(Error::Unsupported)
    }

    /// A file's size, by inode number.
    fn file_size_ino(&mut self, ino: u64) -> (r: Result<u64, Error>)
        requires
            old(self).inv(),
        ensures
            final(self).inv(),
        default_ensures
            r == Err::<u64, Error>(Error::Unsupported) && *final(self) == *old(self),
    {
        Err(Error::Unsupported)
    }

    /// Makes what a file holds durable, by inode number.
    fn flush_inode(&mut self, ino: u64) -> (r: Result<(), Error>)
        requires
            old(self).inv(),
        ensures
            final(self).inv(),
        default_ensures
            r == Err::<(), Error>(Error::Unsupported) && *final(self) == *old(self),
    {
        Err(Error::Unsupported)
    }

    /// Frees what an unnamed inode still holds, once nobody uses it any more.
    fn evict_inode(&mut self, ino: u64) -> (r: Result<(), Error>)
        requires
            old(self).inv(),
        ensures
            final(self).inv(),
        default_ensures
            r == Ok::<(), Error>(()) && *final(self) == *old(self),
    {
        Ok(())
    }

    /// Passes a device-specific request to the file at `path`, with its argument and the length
    /// of the buffer that the argument stands for, if it stands for one.
    fn ioctl(&mut self, path: &Path, request: u64, arg: u64, arg_len: usize) -> (r: Result<
        u64,
        Error,
    >)
        requires
            old(self).inv(),
        ensures
            final(self).inv(),
        default_ensures
            r == Err::<u64, Error>(Error::IoError) && *final(self) == *old(self),
    {
        Err(Error::IoError)
    }

    /// What the file at `path` is ready for.
    fn poll(&mut self, path: &Path) -> (r: Result<PollState, Error>)
        requires
            old(self).inv(),
        ensures
            final(self).inv(),
        default_ensures
            r == Err::<PollState, Error>(Error::IoError) && *final(self) == *old(self),
    {
        Err(Error::IoError)
    }

    /// The memory to map for `length` bytes at `offset` of the file at `path`.
    fn mmap(&mut self, path: &Path, offset: usize, length: usize) -> (r: Result<MmapRegion, Error>)
        requires
            old(self).inv(),
        ensures
            final(self).inv(),
        default_ensures
            r == Err::<MmapRegion, Error>(Error::IoError) && *final(self) == *old(self),
    {
        Err(Error::IoError)
    }
}

} // verus!

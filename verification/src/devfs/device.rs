//! What a device answers.
use vstd::prelude::*;
use vstd::std_specs::convert::FromSpecImpl;
use crate::error::Error;
use crate::types::{MmapRegion, PollState};

verus! {

/// Why a device, or the registry of devices, refused.
#[derive(Debug, Clone, Copy, PartialEq, Eq, Structural)]
pub enum DevFsError {
    AlreadyExists,
    NotFound,
    InvalidPath,
    Unsupported,
    IoError,
    Busy,
    NoSpace,
}

/// The file system error that a refusal is reported as.
pub open spec fn reported(e: DevFsError) -> Error {
    match e {
        DevFsError::NotFound => Error::FileNotFound,
        DevFsError::Busy => Error::Busy,
        DevFsError::InvalidPath => Error::InvalidArgument,
        DevFsError::NoSpace => Error::NoSpace,
        DevFsError::AlreadyExists => Error::AlreadyExists,
        DevFsError::Unsupported => Error::Unsupported,
        DevFsError::IoError => Error::IoError,
    }
}

impl From<DevFsError> for Error {
    fn from(value: DevFsError) -> (r: Error) {
        match value {
            DevFsError::NotFound => Error::FileNotFound,
            DevFsError::Busy => Error::Busy,
            DevFsError::InvalidPath => Error::InvalidArgument,
            DevFsError::NoSpace => Error::NoSpace,
            DevFsError::AlreadyExists => Error::AlreadyExists,
            DevFsError::Unsupported => Error::Unsupported,
            DevFsError::IoError => Error::IoError,
        }
    }
}

impl FromSpecImpl<DevFsError> for Error {
    open spec fn obeys_from_spec() -> bool {
        true
    }

    open spec fn from_spec(v: DevFsError) -> Error {
        reported(v)
    }
}

/// What a device's reply is passed on as.
pub open spec fn passed_on<T>(reply: Result<T, DevFsError>) -> Result<T, Error> {
    match reply {
        Ok(v) => Ok(v),
        Err(e) => Err(reported(e)),
    }
}

/// Passes a device's reply on.
pub fn pass_on<T>(reply: Result<T, DevFsError>) -> (r: Result<T, Error>)
    ensures
        r == passed_on(reply),
{
    match reply {
        Ok(v) => Ok(v),
        Err(e) => Err(Error::from(e)),
    }
}

/// What a device's reply to a write is passed on as.
pub open spec fn passed_on_count(reply: Result<usize, DevFsError>) -> Result<u64, Error> {
    match reply {
        Ok(n) => Ok(n as u64),
        Err(e) => Err(reported(e)),
    }
}

/// A device behind a file. For each operation the device says how its state before and after the
/// operation and its reply belong together. One that has no such operation answers
/// `Unsupported` and stays as it is.
pub trait DevFsDevice: Sized {
    /// What holds of the device between operations.
    spec fn device_inv(&self) -> bool;

    /// The size the device's file shows.
    spec fn shown_size(&self) -> u64;

    /// Whether a read of `count` bytes at `offset` may lead from `pre` to `post` with reply `r`.
    spec fn read_step(
        pre: &Self,
        offset: usize,
        count: usize,
        post: &Self,
        r: Result<Vec<u8>, DevFsError>,
    ) -> bool;

    /// Whether a write of `data` at `offset` may lead from `pre` to `post` with reply `r`.
    spec fn write_step(
        pre: &Self,
        offset: usize,
        data: Seq<u8>,
        post: &Self,
        r: Result<usize, DevFsError>,
    ) -> bool;

    /// Whether a request may lead from `pre` to `post` with reply `r`.
    spec fn ioctl_step(
        pre: &Self,
        request: u64,
        arg: u64,
        arg_len: usize,
        post: &Self,
        r: Result<u64, DevFsError>,
    ) -> bool;

    /// Whether asking what the device is ready for may lead from `pre` to `post` with reply `r`.
    spec fn poll_step(pre: &Self, post: &Self, r: Result<PollState, DevFsError>) -> bool;

    /// Whether asking for `length` bytes at `offset` to map may lead from `pre` to `post` with
    /// reply `r`.
    spec fn mmap_step(
        pre: &Self,
        offset: usize,
        length: usize,
        post: &Self,
        r: Result<MmapRegion, DevFsError>,
    ) -> bool;

    /// Up to `count` bytes at `offset`.
    fn read(&mut self, offset: usize, count: usize) -> (r: Result<Vec<u8>, DevFsError>)
        requires
            old(self).device_inv(),
        ensures
            final(self).device_inv(),
            Self::read_step(old(self), offset, count, final(self), r),
    ;

    /// Writes `data` at `offset`; returns how many bytes went.
    fn write(&mut self, offset: usize, data: &[u8]) -> (r: Result<usize, DevFsError>)
        requires
            old(self).device_inv(),
        ensures
            final(self).device_inv(),
            Self::write_step(old(self), offset, data@, final(self), r),
    ;

    /// Device control. `arg` is a number, or stands for a buffer of exactly `arg_len` bytes;
    /// `arg_len` is zero where it is a number.
    fn ioctl(&mut self, request: u64, arg: u64, arg_len: usize) -> (r: Result<u64, DevFsError>)
        requires
            old(self).device_inv(),
        ensures
            final(self).device_inv(),
            Self::ioctl_step(old(self), request, arg, arg_len, final(self), r),
    ;

    /// What the device is ready for.
    fn poll(&mut self) -> (r: Result<PollState, DevFsError>)
        requires
            old(self).device_inv(),
        ensures
            final(self).device_inv(),
            Self::poll_step(old(self), final(self), r),
    ;

    /// The memory to map for `length` bytes at `offset`.
    fn mmap(&mut self, offset: usize, length: usize) -> (r: Result<MmapRegion, DevFsError>)
        requires
            old(self).device_inv(),
        ensures
            final(self).device_inv(),
            Self::mmap_step(old(self), offset, length, final(self), r),
    ;

    /// The size the device's file shows.
    fn size(&self) -> (r: u64)
        requires
            self.device_inv(),
        ensures
            r == self.shown_size(),
    ;
}

} // verus!

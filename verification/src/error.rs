//! The error every file system operation reports.
use vstd::prelude::*;

verus! {

/// Why a file system operation failed.
#[derive(Debug, Clone, Copy, PartialEq, Eq, Structural)]
pub enum Error {
    FileNotFound,
    NotAFile,
    NotADir,
    IoError,
    MissingCriticalSectors,
    AhciError,
    InvalidFs,
    Corrupted,
    Unsupported,
    Busy,
    InvalidArgument,
    TooManyLinks,
    ProtocolMismatch,
    NoSpace,
    AlreadyExists,
    LinkEscape,
}

} // verus!

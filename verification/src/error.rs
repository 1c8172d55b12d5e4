//! The error values every filesystem operation reports.
use vstd::prelude::*;

verus! {

/// Reason an operation was refused.
#[derive(Debug, Clone, Copy, PartialEq, Eq, Structural)]
pub enum Error {
    InvalidArgument,
    NotFound,
    AlreadyExists,
    PermissionDenied,
    Busy,
    DeviceError,
    Unsupported,
    NotImplemented,
    OutOfMemory,
    InternalError,
    InvalidCredential,
    BrokenPipe,
    WouldBlock,
}

/// Result of a filesystem operation.
pub type Result<T> = core::result::Result<T, Error>;

} // verus!

//! Error codes and the error type shared by every operation.

use vstd::prelude::*;

verus! {

/// The `errno` values that the file system reports.
#[derive(Clone, Copy, Debug, PartialEq, Eq, Structural)]
pub enum ErrCode {
    E2BIG,
    EAGAIN,
    EEXIST,
    EFBIG,
    EINVAL,
    EIO,
    EISDIR,
    ENODATA,
    ENOENT,
    ENOMEM,
    ENOSPC,
    ENOTDIR,
    ENOTEMPTY,
    ENOTSUP,
    EROFS,
}

/// A failed operation, identified by its code.
#[derive(Clone, Copy, Debug, PartialEq, Eq, Structural)]
pub struct Ext4Error {
    pub code: ErrCode,
}

impl Ext4Error {
    /// An error with the given code.
    pub fn new(code: ErrCode) -> (error: Self)
        ensures
            error == (Ext4Error { code }),
    {
        Ext4Error { code }
    }

    /// The code of the error.
    pub fn code(&self) -> (code: ErrCode)
        ensures
            code == self.code,
    {
        self.code
    }
}

pub type Result<T> = core::result::Result<T, Ext4Error>;

/// The failed outcome with `code`.
pub open spec fn failed<T>(code: ErrCode) -> Result<T> {
    Err(Ext4Error { code })
}

/// `Err` of the given code.
pub fn fail<T>(code: ErrCode) -> (outcome: Result<T>)
    ensures
        outcome == failed::<T>(code),
{
    Err(Ext4Error { code })
}

} // verus!

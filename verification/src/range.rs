//! The blocks that a byte range of a file touches.

use vstd::prelude::*;
use crate::error::{failed, ErrCode, Ext4Error, Result};
use crate::{LBlockId, BLOCK_SIZE};

verus! {

/// The logical blocks of a write.
#[derive(Clone, Copy, Debug, PartialEq, Eq, Structural)]
pub struct WriteLogicalRange {
    pub first_lblock: LBlockId,
    pub last_lblock: LBlockId,
    pub block_count: usize,
}

/// Whether the last byte of a range has an offset, and its block a number.
pub open spec fn addressable(offset: usize, len: usize) -> bool {
    &&& offset + len <= usize::MAX
    &&& (offset + len - 1) / BLOCK_SIZE as int <= u32::MAX
}

/// The blocks that `len` bytes from `offset` on touch.
pub open spec fn range_of(offset: usize, len: usize) -> WriteLogicalRange {
    let first = offset as int / BLOCK_SIZE as int;
    let last = (offset + len - 1) / BLOCK_SIZE as int;
    WriteLogicalRange {
        first_lblock: first as u32,
        last_lblock: last as u32,
        block_count: (last - first + 1) as usize,
    }
}

impl WriteLogicalRange {
    /// Whether the range is the range of some bytes.
    pub open spec fn inv(&self) -> bool {
        &&& self.first_lblock <= self.last_lblock
        &&& self.block_count == self.last_lblock - self.first_lblock + 1
    }

    /// The blocks that `len` bytes from `offset` on touch; none for an empty range.
    pub fn checked(offset: usize, len: usize) -> (range: Result<Option<WriteLogicalRange>>)
        ensures
            range == if len == 0 {
                Ok::<Option<WriteLogicalRange>, Ext4Error>(None)
            } else if !addressable(offset, len) {
                failed(ErrCode::EFBIG)
            } else {
                Ok(Some(range_of(offset, len)))
            },
            range matches Ok(Some(found)) ==> found.inv(),
    {
        if len == 0 {
            return Ok(None);
        }
        let end: usize = match offset.checked_add(len - 1) {
            Some(last) => last,
            None => {
                return Err(Ext4Error::new(ErrCode::EFBIG));
            },
        };
        if end == usize::MAX {
            return Err(Ext4Error::new(ErrCode::EFBIG));
        }
        let first: usize = offset / BLOCK_SIZE;
        let last: usize = end / BLOCK_SIZE;
        if last > u32::MAX as usize {
            return Err(Ext4Error::new(ErrCode::EFBIG));
        }
        Ok(
            Some(
                WriteLogicalRange {
                    first_lblock: first as u32,
                    last_lblock: last as u32,
                    block_count: last - first + 1,
                },
            ),
        )
    }
}

} // verus!

//! The barrier between direct and transactional metadata writers.
//!
//! Any number of direct writers, or one exclusive transactional writer, may be inside.

use vstd::prelude::*;
use crate::error::{failed, ErrCode, Ext4Error, Result};

verus! {

/// The most direct writers that can be inside.
pub const METADATA_GATE_DIRECT_MAX: u32 = 0x7fff_ffff;

/// Who is inside the barrier.
#[derive(Clone, Copy, Debug, PartialEq, Eq, Structural)]
pub struct MetadataMutationGate {
    /// Number of direct writers.
    pub direct: u32,
    /// Whether an exclusive writer is inside.
    pub exclusive: bool,
}

impl MetadataMutationGate {
    /// Direct and exclusive writers are never inside together.
    pub open spec fn inv(&self) -> bool {
        &&& self.direct <= METADATA_GATE_DIRECT_MAX
        &&& self.exclusive ==> self.direct == 0
    }

    /// Whether nobody is inside.
    pub open spec fn idle(&self) -> bool {
        self.direct == 0 && !self.exclusive
    }

    /// A gate with nobody inside.
    pub fn new() -> (gate: Self)
        ensures
            gate.inv(),
            gate.idle(),
    {
        MetadataMutationGate { direct: 0, exclusive: false }
    }

    /// Lets a direct writer in.
    pub fn enter_direct(&mut self) -> (entered: Result<()>)
        requires
            old(self).inv(),
        ensures
            final(self).inv(),
            if old(self).exclusive || old(self).direct == METADATA_GATE_DIRECT_MAX {
                &&& entered == failed::<()>(ErrCode::EAGAIN)
                &&& *final(self) == *old(self)
            } else {
                &&& entered == Ok::<(), Ext4Error>(())
                &&& *final(self) == (MetadataMutationGate {
                    direct: (old(self).direct + 1) as u32,
                    exclusive: false,
                })
            },
    {
        if self.exclusive || self.direct == METADATA_GATE_DIRECT_MAX {
            return Err(Ext4Error::new(ErrCode::EAGAIN));
        }
        self.direct = self.direct + 1;
        Ok(())
    }

    /// Lets a direct writer out.
    pub fn leave_direct(&mut self)
        requires
            old(self).inv(),
            old(self).direct > 0,
        ensures
            final(self).inv(),
            *final(self) == (MetadataMutationGate {
                direct: (old(self).direct - 1) as u32,
                exclusive: old(self).exclusive,
            }),
    {
        self.direct = self.direct - 1;
    }

    /// Lets an exclusive writer in.
    pub fn enter_exclusive(&mut self) -> (entered: Result<()>)
        requires
            old(self).inv(),
        ensures
            final(self).inv(),
            if !old(self).idle() {
                &&& entered == failed::<()>(ErrCode::EAGAIN)
                &&& *final(self) == *old(self)
            } else {
                &&& entered == Ok::<(), Ext4Error>(())
                &&& *final(self) == (MetadataMutationGate { direct: 0, exclusive: true })
            },
    {
        if self.exclusive || self.direct != 0 {
            return Err(Ext4Error::new(ErrCode::EAGAIN));
        }
        self.exclusive = true;
        Ok(())
    }

    /// Lets the exclusive writer out.
    pub fn leave_exclusive(&mut self)
        requires
            old(self).inv(),
            old(self).exclusive,
        ensures
            final(self).inv(),
            final(self).idle(),
    {
        self.exclusive = false;
    }
}

} // verus!

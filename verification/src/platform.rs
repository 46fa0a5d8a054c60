//! Platform stubs for boards whose memory-protection unit is absent.

use vstd::prelude::*;

verus! {

/// A memory-protection unit handle for platforms without an MPU: every
/// configuration request is accepted and ignored.
pub struct DummyMPU;

impl DummyMPU {
    /// Configuring the dummy MPU has no effect.
    pub fn set_mpu(&mut self, _base: u32, _size: u32, _flags: u32, _enable: bool, _kind: u32)
        ensures
            *final(self) == *old(self),
    {
    }
}

} // verus!

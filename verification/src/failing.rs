//! A device in memory that fails a chosen write: what a crash in the middle of a commit
//! leaves behind can be mounted and looked at.
use vstd::prelude::*;

use crate::block::{BLOCK_SIZE, BlockDevice, DeviceHealth, MemoryBlockDevice, read_vec, span_fits};
use crate::bytes::{put, write_bytes};
use crate::error::{Error, Result};
use crate::order::smaller;

verus! {

/// How a write fails.
#[derive(Debug, Clone, Copy, PartialEq, Eq, Structural)]
pub enum WriteFailureMode {
    /// Nothing of it reaches the device.
    BeforeWrite,
    /// Only its first bytes do.
    TornWrite { prefix_len: usize },
}

/// Which write fails: the first for a number of one, and so on.
#[derive(Debug, Clone, Copy, PartialEq, Eq, Structural)]
pub struct WriteFailurePlan {
    pub call: usize,
    pub mode: WriteFailureMode,
}

/// The device. A plan is used up by the write that it fails.
pub struct FailingBlockDevice {
    pub inner: MemoryBlockDevice,
    pub plan: Option<WriteFailurePlan>,
}

impl FailingBlockDevice {
    /// A device that fails nothing yet.
    pub fn new(inner: MemoryBlockDevice) -> (r: Self)
        ensures
            r.inner == inner,
            r.plan is None,
    {
        FailingBlockDevice { inner, plan: None }
    }

    /// Lets a write fail: the one with this number among those to come.
    pub fn arm_failure(&mut self, call: usize, mode: WriteFailureMode)
        ensures
            final(self).inner == old(self).inner,
            final(self).plan == Some(WriteFailurePlan { call, mode }),
    {
        self.plan = Some(WriteFailurePlan { call, mode });
    }

    /// The failure of the next write, if it is to fail.
    pub open spec fn due(&self) -> Option<WriteFailureMode> {
        match self.plan {
            Some(p) => if p.call == 1 {
                Some(p.mode)
            } else {
                None
            },
            None => None,
        }
    }

    /// The plan after another write.
    pub open spec fn plan_after(&self) -> Option<WriteFailurePlan> {
        match self.plan {
            Some(p) => if p.call == 1 {
                None
            } else if p.call == 0 {
                Some(p)
            } else {
                Some(WriteFailurePlan { call: (p.call - 1) as usize, mode: p.mode })
            },
            None => None,
        }
    }
}

impl BlockDevice for FailingBlockDevice {
    open spec fn image(&self) -> Seq<u8> {
        self.inner.image()
    }

    open spec fn block_bytes(&self) -> usize {
        self.inner.block_bytes()
    }

    open spec fn write_protected(&self) -> bool {
        self.inner.write_protected()
    }

    open spec fn health(&self) -> DeviceHealth {
        DeviceHealth::Healthy
    }

    open spec fn read_fault(&self, lba: int, len: int) -> Option<Error> {
        self.inner.read_fault(lba, len)
    }

    open spec fn write_fault(&self, lba: int, data: Seq<u8>) -> Option<Error> {
        match self.due() {
            None => self.inner.write_fault(lba, data),
            Some(WriteFailureMode::BeforeWrite) => Some(Error::DeviceError),
            Some(WriteFailureMode::TornWrite { .. }) => if !span_fits(
                self.image().len(),
                lba,
                data.len() as int,
            ) {
                Some(Error::InvalidArgument)
            } else if self.write_protected() {
                Some(Error::PermissionDenied)
            } else {
                Some(Error::DeviceError)
            },
        }
    }

    open spec fn reliable(&self) -> bool {
        self.plan is None
    }

    proof fn lemma_read_fits(&self, lba: int, len: int) {
    }

    proof fn lemma_reliable_read(&self, lba: int, len: int) {
    }

    proof fn lemma_reliable_write(&self, lba: int, data: Seq<u8>) {
    }

    fn block_size(&self) -> (n: usize) {
        self.inner.block_size()
    }

    fn block_count(&self) -> (n: u64) {
        self.inner.block_count()
    }

    fn is_read_only(&self) -> (r: bool) {
        self.inner.is_read_only()
    }

    fn device_health(&self) -> (r: DeviceHealth) {
        DeviceHealth::Healthy
    }

    fn read_blocks(&self, lba: u64, buffer: &mut [u8]) -> (r: Result<()>) {
        self.inner.read_blocks(lba, buffer)
    }

    fn write_blocks(&mut self, lba: u64, data: &[u8]) -> (r: Result<()>)
        ensures
            final(self).plan == old(self).plan_after(),
            old(self).due() == Some(WriteFailureMode::BeforeWrite) ==> final(self).image() == old(
                self,
            ).image(),
            old(self).due() matches Some(WriteFailureMode::TornWrite { prefix_len }) ==> r
                == Err::<(), Error>(Error::DeviceError) ==> final(self).image() == put(
                old(self).image(),
                lba * BLOCK_SIZE,
                data@.take(smaller(prefix_len as int, data@.len() as int)),
            ),
    {
        let mode: Option<WriteFailureMode> = match self.plan {
            None => None,
            Some(p) => {
                if p.call == 1 {
                    self.plan = None;
                    Some(p.mode)
                } else {
                    if p.call > 1 {
                        self.plan = Some(WriteFailurePlan { call: p.call - 1, mode: p.mode });
                    }
                    None
                }
            },
        };
        match mode {
            None => self.inner.write_blocks(lba, data),
            Some(WriteFailureMode::BeforeWrite) => Err(Error::DeviceError),
            Some(WriteFailureMode::TornWrite { prefix_len }) => {
                let ghost before = self.image();
                let mut mixed = read_vec(&self.inner, lba, data.len())?;
                let n: usize = if prefix_len < data.len() {
                    prefix_len
                } else {
                    data.len()
                };
                write_bytes(mixed.as_mut_slice(), 0, vstd::slice::slice_subrange(data, 0, n));
                self.inner.write_blocks(lba, mixed.as_slice())?;
                assert(self.image() =~= put(
                    before,
                    lba * BLOCK_SIZE,
                    data@.take(n as int),
                ));
                Err(Error::DeviceError)
            },
        }
    }
}

/// A planned failure comes closer by one with every write, and happens once: with the write
/// that it is due for the plan is over.
pub proof fn law_planned_failure_comes_closer(d: FailingBlockDevice, p: WriteFailurePlan)
    requires
        d.plan == Some(p),
        p.call > 0,
    ensures
        p.call == 1 ==> d.due() == Some(p.mode) && d.plan_after() is None,
        p.call > 1 ==> d.due() is None && (d.plan_after() matches Some(n) && n.call == p.call - 1
            && n.mode == p.mode),
{
}

} // verus!

//! Dynamic memory: what may be asked for, and the contract of a platform that
//! maps it.
use crate::error::MemoryError;
use crate::guest::Region;
use crate::math::is_pow2;
use crate::platform::VmCall;
pub use crate::devices::memory::VirtioMem;
use vstd::prelude::*;

verus! {

/// Bytes of a mebibyte.
pub const MIB: u64 = 0x10_0000;

/// Size of the memory blocks that a Linux guest adds and removes, in MiB.
pub const HOTPLUG_BLOCK_MIB: u64 = 128;

/// The bytes of `mib` mebibytes, if they can be counted.
pub fn mib_bytes(mib: u64) -> (r: Result<u64, MemoryError>)
    ensures
        r == if mib * MIB <= u64::MAX {
            Ok::<u64, MemoryError>((mib * MIB) as u64)
        } else {
            Err(MemoryError::CapacityOverflow { mib })
        },
{
    match mib.checked_mul(MIB) {
        Some(bytes) => Ok(bytes),
        None => Err(MemoryError::CapacityOverflow { mib }),
    }
}

/// Each operation must be atomic on error. Mappings borrow the region until
/// unmap succeeds or the VM is destroyed. Called only while vCPUs are stopped.
///
/// Only proofs look at the ghost functions: an implementation that stands
/// outside them may leave them out.
pub trait Mapper {
    /// What the platform was asked for so far, the latest last.
    open spec fn calls(&self) -> Seq<VmCall> {
        arbitrary()
    }

    fn map(&mut self, region: &Region) -> (r: Result<(), MemoryError>)
        ensures
            final(self).calls() == old(self).calls().push(
                VmCall::Mapped { piece: region.piece(), result: r },
            ),
    ;

    fn unmap(&mut self, region: &Region) -> (r: Result<(), MemoryError>)
        ensures
            final(self).calls() == old(self).calls().push(
                VmCall::Unmapped { piece: region.piece(), result: r },
            ),
    ;
}

#[derive(Clone, Copy, Debug, PartialEq, Eq, Structural)]
pub enum MemoryLifecycle {
    Created,
    Running,
    Stopped,
}

#[derive(Clone, Copy, Debug, PartialEq, Eq, Structural)]
pub struct MemoryStatus {
    pub region_size_mib: u64,
    pub block_size_mib: u64,
    pub requested_size_mib: u64,
    pub plugged_size_mib: u64,
    pub driver_ready: bool,
    pub lifecycle: MemoryLifecycle,
}

/// Granularity of a region whose blocks are of `block_size_mib`.
pub open spec fn granule_mib(block_size_mib: u64) -> u64 {
    if block_size_mib < HOTPLUG_BLOCK_MIB {
        HOTPLUG_BLOCK_MIB
    } else {
        block_size_mib
    }
}

/// The region and the block size can make a device.
pub open spec fn sizes_ok(region_size_mib: u64, block_size_mib: u64) -> bool {
    &&& is_pow2(block_size_mib as int)
    &&& 0 < region_size_mib
    &&& region_size_mib % granule_mib(block_size_mib) == 0
    &&& region_size_mib * MIB <= u64::MAX
    &&& block_size_mib * MIB <= usize::MAX
}

/// The target is a whole number of blocks that the region holds.
pub open spec fn target_ok(target: u64, region_size_mib: u64, block_size_mib: u64) -> bool {
    target % block_size_mib == 0 && target <= region_size_mib
}

impl MemoryStatus {
    /// Sizes are those of a device, and the target is within reach.
    pub open spec fn wf(self) -> bool {
        &&& sizes_ok(self.region_size_mib, self.block_size_mib)
        &&& target_ok(self.requested_size_mib, self.region_size_mib, self.block_size_mib)
        &&& self.plugged_size_mib <= self.region_size_mib
    }
}

/// What comes of asking for a target, and the state after.
pub open spec fn targeted(s: MemoryStatus, requested: u64) -> (Result<(), MemoryError>, MemoryStatus) {
    if s.lifecycle == MemoryLifecycle::Stopped {
        (Err(MemoryError::Stopped), s)
    } else if !target_ok(requested, s.region_size_mib, s.block_size_mib) {
        (
            Err(
                MemoryError::InvalidTarget {
                    requested,
                    capacity: s.region_size_mib,
                    block_size_mib: s.block_size_mib,
                },
            ),
            s,
        )
    } else {
        (Ok(()), MemoryStatus { requested_size_mib: requested, ..s })
    }
}

/// The state once the device runs.
pub open spec fn started(s: MemoryStatus) -> MemoryStatus {
    MemoryStatus { lifecycle: MemoryLifecycle::Running, ..s }
}

/// The state once the device has ended.
pub open spec fn ended(s: MemoryStatus) -> MemoryStatus {
    MemoryStatus { lifecycle: MemoryLifecycle::Stopped, driver_ready: false, ..s }
}

/// What may become of the control state from outside the device.
pub enum Steering {
    Target { mib: u64 },
    Start,
    Stop,
    Ready { up: bool },
}

/// The state after one of these.
pub open spec fn steered(s: MemoryStatus, by: Steering) -> MemoryStatus {
    match by {
        Steering::Target { mib } => targeted(s, mib).1,
        Steering::Start => started(s),
        Steering::Stop => ended(s),
        Steering::Ready { up } => MemoryStatus { driver_ready: up, ..s },
    }
}

/// The state after all of these, the first one first.
pub open spec fn history(s: MemoryStatus, by: Seq<Steering>) -> MemoryStatus
    decreases by.len(),
{
    if by.len() == 0 {
        s
    } else {
        steered(history(s, by.drop_last()), by.last())
    }
}

/// The target that was accepted last among these; `s` has it, if none was.
pub open spec fn last_accepted(s: MemoryStatus, by: Seq<Steering>) -> u64
    decreases by.len(),
{
    if by.len() == 0 {
        s.requested_size_mib
    } else {
        match by.last() {
            Steering::Target { mib } => if targeted(history(s, by.drop_last()), mib).0 is Ok {
                mib
            } else {
                last_accepted(s, by.drop_last())
            },
            _ => last_accepted(s, by.drop_last()),
        }
    }
}

/// Whatever is asked for and however the device starts and stops in between,
/// the target is the one that was accepted last, a whole number of blocks that
/// the region holds. The sizes of region, block and plugged memory never change
/// by it, and the target can still be read after the device has ended.
pub proof fn target_is_the_last_accepted(s: MemoryStatus, by: Seq<Steering>)
    requires
        s.wf(),
    ensures
        history(s, by).wf(),
        history(s, by).requested_size_mib == last_accepted(s, by),
        target_ok(last_accepted(s, by), s.region_size_mib, s.block_size_mib),
        history(s, by).region_size_mib == s.region_size_mib,
        history(s, by).block_size_mib == s.block_size_mib,
        history(s, by).plugged_size_mib == s.plugged_size_mib,
        history(s, by.push(Steering::Stop)).requested_size_mib == last_accepted(s, by),
    decreases by.len(),
{
    assert(by.push(Steering::Stop).drop_last() =~= by);
    if by.len() > 0 {
        target_is_the_last_accepted(s, by.drop_last());
    }
}

/// The state that the device and its controllers share.
#[derive(Debug)]
pub struct MemoryControl {
    state: MemoryStatus,
}

impl View for MemoryControl {
    type V = MemoryStatus;

    closed spec fn view(&self) -> MemoryStatus {
        self.state
    }
}

impl MemoryControl {
    pub fn new(region_size_mib: u64, block_size_mib: u64) -> (r: Self)
        requires
            sizes_ok(region_size_mib, block_size_mib),
        ensures
            r@ == (MemoryStatus {
                region_size_mib,
                block_size_mib,
                requested_size_mib: 0,
                plugged_size_mib: 0,
                driver_ready: false,
                lifecycle: MemoryLifecycle::Created,
            }),
            r@.wf(),
    {
        proof {
            lemma_block_positive(block_size_mib);
            assert(0u64 % block_size_mib == 0) by (nonlinear_arith)
                requires
                    block_size_mib > 0,
            ;
        }
        MemoryControl {
            state: MemoryStatus {
                region_size_mib,
                block_size_mib,
                requested_size_mib: 0,
                plugged_size_mib: 0,
                driver_ready: false,
                lifecycle: MemoryLifecycle::Created,
            },
        }
    }

    /// A second copy of the state.
    pub fn copy(&self) -> (r: MemoryControl)
        ensures
            r@ == self@,
    {
        MemoryControl { state: self.state }
    }

    /// This state with the target of `other`.
    pub fn aimed_as(&self, other: &MemoryControl) -> (r: MemoryControl)
        ensures
            r@ == (MemoryStatus { requested_size_mib: other@.requested_size_mib, ..self@ }),
    {
        MemoryControl {
            state: MemoryStatus {
                requested_size_mib: other.state.requested_size_mib,
                ..self.state
            },
        }
    }

    /// Accepts a desired extra-memory size. The guest may not reach it
    /// immediately. A stopped device accepts none.
    pub fn set_requested_mib(&mut self, requested: u64) -> (r: Result<(), MemoryError>)
        requires
            old(self)@.wf(),
        ensures
            final(self)@.wf(),
            (r, final(self)@) == targeted(old(self)@, requested),
    {
        if self.state.lifecycle == MemoryLifecycle::Stopped {
            return Err(MemoryError::Stopped);
        }
        proof {
            lemma_block_positive(self.state.block_size_mib);
        }
        if requested % self.state.block_size_mib != 0 || requested > self.state.region_size_mib {
            return Err(
                MemoryError::InvalidTarget {
                    requested,
                    capacity: self.state.region_size_mib,
                    block_size_mib: self.state.block_size_mib,
                },
            );
        }
        self.state.requested_size_mib = requested;
        Ok(())
    }

    pub fn status(&self) -> (r: MemoryStatus)
        ensures
            r == self@,
    {
        self.state
    }

    pub fn start(&mut self)
        ensures
            final(self)@ == started(old(self)@),
    {
        self.state.lifecycle = MemoryLifecycle::Running;
    }

    pub fn stop(&mut self)
        ensures
            final(self)@ == ended(old(self)@),
    {
        self.state.lifecycle = MemoryLifecycle::Stopped;
        self.state.driver_ready = false;
    }

    pub fn set_driver_ready(&mut self, ready: bool)
        ensures
            final(self)@ == (MemoryStatus { driver_ready: ready, ..old(self)@ }),
    {
        self.state.driver_ready = ready;
    }

    pub fn set_plugged_mib(&mut self, plugged: u64)
        ensures
            final(self)@ == (MemoryStatus { plugged_size_mib: plugged, ..old(self)@ }),
    {
        self.state.plugged_size_mib = plugged;
    }
}

pub proof fn lemma_block_positive(block_size_mib: u64)
    requires
        is_pow2(block_size_mib as int),
    ensures
        block_size_mib > 0,
{
    let k = choose|k: nat| block_size_mib == #[trigger] vstd::arithmetic::power2::pow2(k);
    vstd::arithmetic::power2::lemma_pow2_pos(k);
}

} // verus!

//! What a platform brings: its layout, and a virtual machine that the device
//! models and the runtime drive.
use crate::error::{MemoryError, PlatformError};
use crate::guest::{Guest, Memory, Piece};
use crate::memory::{mib_bytes, Mapper, MIB};
use crate::placing::{accepted, accepted_layouts};
use vstd::prelude::*;

verus! {

/// What a VM is made of besides its devices.
#[derive(Clone, Copy, Debug, PartialEq, Eq, Structural)]
pub struct VmConfig {
    pub memory_mib: u64,
    pub vcpu_count: u32,
}

impl Default for VmConfig {
    fn default() -> (r: VmConfig)
        ensures
            r == (VmConfig { memory_mib: 512, vcpu_count: 1 }),
    {
        VmConfig { memory_mib: 512, vcpu_count: 1 }
    }
}

#[derive(Clone, Copy, Debug, PartialEq, Eq, Structural)]
pub enum IoSpace {
    Mmio,
    Port,
}

#[derive(Clone, Copy, Debug, PartialEq, Eq, Structural)]
pub struct MemoryRange {
    pub address: u64,
    pub size: u64,
}

#[derive(Clone, Copy, Debug, PartialEq, Eq, Structural)]
pub struct IoRegion {
    pub space: IoSpace,
    pub address: u64,
    pub size: u64,
    pub irq: u32,
}

#[derive(Clone, Debug)]
pub enum DeviceKind {
    Block(String),
    Net,
    Memory,
}

#[derive(Clone, Copy, Debug, PartialEq, Eq, Structural)]
pub struct MemoryRequirement {
    pub capacity: u64,
    pub alignment: u64,
}

#[derive(Clone, Debug)]
pub struct DeviceRequirements {
    /// Sorted disks, followed by network and dynamic memory.
    pub devices: Vec<DeviceKind>,
    pub hotplug: Option<MemoryRequirement>,
}

#[derive(Clone, Debug)]
pub struct MachineLayout {
    pub ram: Vec<MemoryRange>,
    pub uart: IoRegion,
    pub virtio: Vec<IoRegion>,
    pub hotplug: Option<MemoryRange>,
}

/// Addresses from `address` up to `end` of one space.
#[derive(Clone, Copy, Debug, PartialEq, Eq, Structural)]
pub struct Claim {
    pub space: IoSpace,
    pub address: u64,
    pub end: u64,
}

/// The two share an address.
pub open spec fn collide(a: Claim, b: Claim) -> bool {
    a.space == b.space && a.address < b.end && b.address < a.end
}

/// The addresses of a region.
pub open spec fn claim(space: IoSpace, address: u64, size: u64) -> Claim {
    Claim { space, address, end: (address + size) as u64 }
}

/// Why a region cannot stand beside `claims`.
pub open spec fn rejection(
    claims: Seq<Claim>,
    space: IoSpace,
    address: u64,
    size: u64,
) -> Option<PlatformError> {
    if size == 0 {
        Some(PlatformError::EmptyRegion)
    } else if address + size > u64::MAX {
        Some(PlatformError::RegionOverflow { address, size })
    } else if space == IoSpace::Port && address + size > 0x1_0000 {
        Some(PlatformError::PortRangeOverflow { address, size })
    } else if exists|i: int|
        0 <= i < claims.len() && #[trigger] collide(claims[i], claim(space, address, size)) {
        Some(PlatformError::OverlappingRegions { address, size })
    } else {
        None
    }
}

/// The claims with one more region, if it can stand beside them.
pub open spec fn with_claim(
    claims: Seq<Claim>,
    space: IoSpace,
    address: u64,
    size: u64,
) -> Result<Seq<Claim>, PlatformError> {
    match rejection(claims, space, address, size) {
        Some(e) => Err(e),
        None => Ok(claims.push(claim(space, address, size))),
    }
}

/// The size of `ram` in bytes, and its addresses.
pub open spec fn claim_ram(ram: Seq<MemoryRange>) -> Result<(u64, Seq<Claim>), PlatformError>
    decreases ram.len(),
{
    if ram.len() == 0 {
        Ok((0, Seq::empty()))
    } else {
        let r = ram.last();
        match claim_ram(ram.drop_last()) {
            Err(e) => Err(e),
            Ok((total, claims)) => if r.size > usize::MAX {
                Err(PlatformError::Integer)
            } else if total + r.size > u64::MAX {
                Err(PlatformError::RamCapacityOverflow { total, size: r.size })
            } else {
                match with_claim(claims, IoSpace::Mmio, r.address, r.size) {
                    Err(e) => Err(e),
                    Ok(claims) => Ok(((total + r.size) as u64, claims)),
                }
            },
        }
    }
}

/// The claims with those of `virtio`.
pub open spec fn claim_virtio(claims: Seq<Claim>, virtio: Seq<IoRegion>) -> Result<
    Seq<Claim>,
    PlatformError,
>
    decreases virtio.len(),
{
    if virtio.len() == 0 {
        Ok(claims)
    } else {
        let r = virtio.last();
        match claim_virtio(claims, virtio.drop_last()) {
            Err(e) => Err(e),
            Ok(claims) => if r.space != IoSpace::Mmio || r.size < 0x200 {
                Err(PlatformError::InvalidVirtioMmioRegion)
            } else {
                with_claim(claims, r.space, r.address, r.size)
            },
        }
    }
}

/// `address` is a multiple of `alignment`; only zero is one of zero.
pub open spec fn aligned(address: u64, alignment: u64) -> bool {
    if alignment == 0 {
        address == 0
    } else {
        address % alignment == 0
    }
}

/// The claims with that of dynamic memory, if it is there and wanted.
pub open spec fn claim_hotplug(
    claims: Seq<Claim>,
    hotplug: Option<MemoryRange>,
    need: Option<MemoryRequirement>,
) -> Result<Seq<Claim>, PlatformError> {
    match (hotplug, need) {
        (Some(r), Some(n)) => if r.size != n.capacity || !aligned(r.address, n.alignment) {
            Err(
                PlatformError::InvalidHotplugCapacityAlignment {
                    address: r.address,
                    size: r.size,
                    capacity: n.capacity,
                    alignment: n.alignment,
                },
            )
        } else {
            with_claim(claims, IoSpace::Mmio, r.address, r.size)
        },
        (None, None) => Ok(claims),
        _ => Err(PlatformError::HotplugLayoutMismatch),
    }
}

/// The size of base memory in bytes, if it can be counted.
pub open spec fn base_bytes(mib: u64) -> Result<u64, PlatformError> {
    if mib * MIB <= u64::MAX {
        Ok((mib * MIB) as u64)
    } else {
        Err(PlatformError::Memory(MemoryError::CapacityOverflow { mib }))
    }
}

impl MachineLayout {
    /// The addresses that the layout gives away, or why it cannot.
    pub open spec fn claims(self, config: VmConfig, needs: DeviceRequirements) -> Result<
        Seq<Claim>,
        PlatformError,
    > {
        if config.vcpu_count == 0 {
            Err(PlatformError::InvalidVcpuCount)
        } else if self.ram@.len() == 0 {
            Err(PlatformError::NoBaseRam)
        } else if self.virtio@.len() != needs.devices@.len() {
            Err(
                PlatformError::DeviceCountMismatch {
                    expected: needs.devices@.len() as usize,
                    actual: self.virtio@.len() as usize,
                },
            )
        } else if self.uart.size < 8 {
            Err(PlatformError::UartRegionTooSmall { size: self.uart.size })
        } else {
            match claim_ram(self.ram@) {
                Err(e) => Err(e),
                Ok((total, claims)) => match base_bytes(config.memory_mib) {
                    Err(e) => Err(e),
                    Ok(bytes) => if total != bytes {
                        Err(
                            PlatformError::RamCapacityMismatch {
                                expected_mib: config.memory_mib,
                                actual: total,
                            },
                        )
                    } else {
                        match with_claim(
                            claims,
                            self.uart.space,
                            self.uart.address,
                            self.uart.size,
                        ) {
                            Err(e) => Err(e),
                            Ok(claims) => match claim_virtio(claims, self.virtio@) {
                                Err(e) => Err(e),
                                Ok(claims) => claim_hotplug(claims, self.hotplug, needs.hotplug),
                            },
                        }
                    },
                },
            }
        }
    }

    /// Refuses a layout that does not hold what is needed, or whose regions are
    /// empty, too large or overlap.
    pub fn validate(&self, config: &VmConfig, needs: &DeviceRequirements) -> (r: Result<
        (),
        PlatformError,
    >)
        ensures
            r == match self.claims(*config, *needs) {
                Ok(_) => Ok::<(), PlatformError>(()),
                Err(e) => Err(e),
            },
            r is Ok <==> accepted(*self, *config, *needs),
    {
        proof {
            accepted_layouts(*self, *config, *needs);
        }
        if config.vcpu_count == 0 {
            return Err(PlatformError::InvalidVcpuCount);
        }
        if self.ram.len() == 0 {
            return Err(PlatformError::NoBaseRam);
        }
        if self.virtio.len() != needs.devices.len() {
            return Err(
                PlatformError::DeviceCountMismatch {
                    expected: needs.devices.len(),
                    actual: self.virtio.len(),
                },
            );
        }
        if self.uart.size < 8 {
            return Err(PlatformError::UartRegionTooSmall { size: self.uart.size });
        }
        let mut claims: Vec<Claim> = Vec::new();
        match self.check_ram(&mut claims) {
            Err(e) => {
                return Err(e);
            },
            Ok(total) => match mib_bytes(config.memory_mib) {
                Err(e) => {
                    return Err(PlatformError::Memory(e));
                },
                Ok(bytes) => {
                    if total != bytes {
                        return Err(
                            PlatformError::RamCapacityMismatch {
                                expected_mib: config.memory_mib,
                                actual: total,
                            },
                        );
                    }
                },
            },
        }
        match place_region(&mut claims, self.uart.space, self.uart.address, self.uart.size) {
            Err(e) => {
                return Err(e);
            },
            Ok(_) => {},
        }
        match self.check_virtio(&mut claims) {
            Err(e) => {
                return Err(e);
            },
            Ok(_) => {},
        }
        match (self.hotplug, needs.hotplug) {
            (Some(r), Some(n)) => {
                let fits: bool = if n.alignment == 0 {
                    r.address == 0
                } else {
                    r.address % n.alignment == 0
                };
                if r.size != n.capacity || !fits {
                    return Err(
                        PlatformError::InvalidHotplugCapacityAlignment {
                            address: r.address,
                            size: r.size,
                            capacity: n.capacity,
                            alignment: n.alignment,
                        },
                    );
                }
                match place_region(&mut claims, IoSpace::Mmio, r.address, r.size) {
                    Err(e) => Err(e),
                    Ok(_) => Ok(()),
                }
            },
            (None, None) => Ok(()),
            _ => Err(PlatformError::HotplugLayoutMismatch),
        }
    }

    fn check_ram(&self, claims: &mut Vec<Claim>) -> (r: Result<u64, PlatformError>)
        requires
            old(claims)@.len() == 0,
        ensures
            match claim_ram(self.ram@) {
                Ok((total, list)) => r == Ok::<u64, PlatformError>(total) && final(claims)@ == list,
                Err(e) => r == Err::<u64, PlatformError>(e),
            },
    {
        let mut total: u64 = 0;
        let mut i: usize = 0;
        assert(self.ram@.take(0) =~= Seq::empty());
        assert(claims@ =~= Seq::empty());
        while i < self.ram.len()
            invariant
                i <= self.ram@.len(),
                claim_ram(self.ram@.take(i as int)) == Ok::<(u64, Seq<Claim>), PlatformError>(
                    (total, claims@),
                ),
            decreases self.ram@.len() - i,
        {
            let ghost more = self.ram@.take(i + 1);
            assert(more.drop_last() =~= self.ram@.take(i as int));
            let r: MemoryRange = self.ram[i];
            let failure: Option<PlatformError> = if r.size > usize::MAX as u64 {
                Some(PlatformError::Integer)
            } else {
                match total.checked_add(r.size) {
                    None => Some(PlatformError::RamCapacityOverflow { total, size: r.size }),
                    Some(sum) => match place_region(claims, IoSpace::Mmio, r.address, r.size) {
                        Err(e) => Some(e),
                        Ok(_) => {
                            total = sum;
                            None
                        },
                    },
                }
            };
            match failure {
                Some(e) => {
                    assert(claim_ram(more) == Err::<(u64, Seq<Claim>), PlatformError>(e));
                    proof {
                        lemma_ram_error(self.ram@, i + 1, e);
                    }
                    return Err(e);
                },
                None => {},
            }
            i = i + 1;
        }
        assert(self.ram@.take(self.ram@.len() as int) =~= self.ram@);
        Ok(total)
    }

    fn check_virtio(&self, claims: &mut Vec<Claim>) -> (r: Result<(), PlatformError>)
        ensures
            match claim_virtio(old(claims)@, self.virtio@) {
                Ok(list) => r == Ok::<(), PlatformError>(()) && final(claims)@ == list,
                Err(e) => r == Err::<(), PlatformError>(e),
            },
    {
        let ghost before = claims@;
        let mut i: usize = 0;
        assert(self.virtio@.take(0) =~= Seq::empty());
        while i < self.virtio.len()
            invariant
                i <= self.virtio@.len(),
                before == old(claims)@,
                claim_virtio(before, self.virtio@.take(i as int)) == Ok::<
                    Seq<Claim>,
                    PlatformError,
                >(claims@),
            decreases self.virtio@.len() - i,
        {
            let ghost more = self.virtio@.take(i + 1);
            assert(more.drop_last() =~= self.virtio@.take(i as int));
            let r: IoRegion = self.virtio[i];
            let failure: Option<PlatformError> = if r.space != IoSpace::Mmio || r.size < 0x200 {
                Some(PlatformError::InvalidVirtioMmioRegion)
            } else {
                match place_region(claims, r.space, r.address, r.size) {
                    Err(e) => Some(e),
                    Ok(_) => None,
                }
            };
            match failure {
                Some(e) => {
                    assert(claim_virtio(before, more) == Err::<Seq<Claim>, PlatformError>(e));
                    proof {
                        lemma_virtio_error(before, self.virtio@, i + 1, e);
                    }
                    return Err(e);
                },
                None => {},
            }
            i = i + 1;
        }
        assert(self.virtio@.take(self.virtio@.len() as int) =~= self.virtio@);
        Ok(())
    }
}

/// Adds a region to `claims`, if it can stand beside them.
fn place_region(claims: &mut Vec<Claim>, space: IoSpace, address: u64, size: u64) -> (r: Result<
    (),
    PlatformError,
>)
    ensures
        match with_claim(old(claims)@, space, address, size) {
            Ok(list) => r == Ok::<(), PlatformError>(()) && final(claims)@ == list,
            Err(e) => r == Err::<(), PlatformError>(e) && final(claims)@ == old(claims)@,
        },
{
    if size == 0 {
        return Err(PlatformError::EmptyRegion);
    }
    let end: u64 = match address.checked_add(size) {
        Some(end) => end,
        None => {
            return Err(PlatformError::RegionOverflow { address, size });
        },
    };
    if space == IoSpace::Port && end > 0x1_0000 {
        return Err(PlatformError::PortRangeOverflow { address, size });
    }
    let new: Claim = Claim { space, address, end };
    let mut i: usize = 0;
    while i < claims.len()
        invariant
            i <= claims@.len(),
            claims@ == old(claims)@,
            new == claim(space, address, size),
            end == address + size,
            size != 0,
            address + size <= u64::MAX,
            !(space == IoSpace::Port && address + size > 0x1_0000),
            forall|k: int| 0 <= k < i ==> !#[trigger] collide(claims@[k], new),
        decreases claims@.len() - i,
    {
        let c: Claim = claims[i];
        if c.space == space && c.address < end && address < c.end {
            assert(collide(claims@[i as int], new));
            return Err(PlatformError::OverlappingRegions { address, size });
        }
        i = i + 1;
    }
    claims.push(new);
    Ok(())
}

proof fn lemma_ram_error(ram: Seq<MemoryRange>, n: int, e: PlatformError)
    requires
        0 <= n <= ram.len(),
        claim_ram(ram.take(n)) == Err::<(u64, Seq<Claim>), PlatformError>(e),
    ensures
        claim_ram(ram) == Err::<(u64, Seq<Claim>), PlatformError>(e),
    decreases ram.len() - n,
{
    if n == ram.len() {
        assert(ram.take(n) =~= ram);
    } else {
        assert(ram.take(n + 1).drop_last() =~= ram.take(n));
        lemma_ram_error(ram, n + 1, e);
    }
}

proof fn lemma_virtio_error(claims: Seq<Claim>, virtio: Seq<IoRegion>, n: int, e: PlatformError)
    requires
        0 <= n <= virtio.len(),
        claim_virtio(claims, virtio.take(n)) == Err::<Seq<Claim>, PlatformError>(e),
    ensures
        claim_virtio(claims, virtio) == Err::<Seq<Claim>, PlatformError>(e),
    decreases virtio.len() - n,
{
    if n == virtio.len() {
        assert(virtio.take(n) =~= virtio);
    } else {
        assert(virtio.take(n + 1).drop_last() =~= virtio.take(n));
        lemma_virtio_error(claims, virtio, n + 1, e);
    }
}

/// Values are little-endian; width is in bytes. Completion is opaque to the
/// runtime.
pub struct IoAccess<C> {
    pub space: IoSpace,
    pub address: u64,
    pub width: usize,
    pub write: bool,
    pub value: u64,
    pub completion: C,
}

pub enum Event<C> {
    Io(IoAccess<C>),
    Shutdown,
}

/// What a poll showed of the guest; `token` stands for the completion of an
/// access.
#[allow(inconsistent_fields)]
pub enum Seen {
    Shutdown,
    Io { space: IoSpace, address: u64, width: usize, write: bool, value: u64, token: int },
}

/// What comes of a poll, completions told by their tokens.
pub open spec fn observed<C>(
    r: Result<Option<Event<C>>, PlatformError>,
    token: spec_fn(C) -> int,
) -> Result<Option<Seen>, PlatformError> {
    match r {
        Err(e) => Err(e),
        Ok(None) => Ok(None),
        Ok(Some(Event::Shutdown)) => Ok(Some(Seen::Shutdown)),
        Ok(Some(Event::Io(a))) => Ok(
            Some(
                Seen::Io {
                    space: a.space,
                    address: a.address,
                    width: a.width,
                    write: a.write,
                    value: a.value,
                    token: token(a.completion),
                },
            ),
        ),
    }
}

/// One call of a virtual machine, and its outcome.
#[allow(inconsistent_fields)]
pub enum VmCall {
    /// An allocation was to be mapped at its range of guest addresses.
    Mapped { piece: Piece, result: Result<(), MemoryError> },
    /// An allocation was to be unmapped from its range of guest addresses.
    Unmapped { piece: Piece, result: Result<(), MemoryError> },
    /// The guest was to be loaded into this memory.
    Prepared { memory: Memory, layout: MachineLayout, result: Result<(), PlatformError> },
    Started { result: Result<(), PlatformError> },
    /// An event was waited for, and this one came.
    Polled { timeout_ms: u64, result: Result<Option<Seen>, PlatformError> },
    /// The access of this token was answered.
    Completed { token: int, value: u64, result: Result<(), PlatformError> },
    Irq { irq: u32, level: bool, result: Result<(), PlatformError> },
    Paused { result: Result<(), PlatformError> },
    Resumed { result: Result<(), PlatformError> },
    Stopped,
}

/// A platform owns architecture-specific layout and VM creation policy.
///
/// Only proofs look at the ghost functions: an implementation that stands
/// outside them may leave them out.
pub trait Platform {
    type Vm: VirtualMachine;

    /// What the platform may answer when it is asked for a layout.
    open spec fn layout_rel(
        &self,
        config: VmConfig,
        needs: DeviceRequirements,
        r: Result<MachineLayout, PlatformError>,
    ) -> bool {
        arbitrary()
    }

    /// What may come of creating a VM.
    open spec fn create_rel(&self, config: VmConfig, r: Result<Self::Vm, PlatformError>) -> bool {
        arbitrary()
    }

    fn layout(&self, config: &VmConfig, devices: &DeviceRequirements) -> (r: Result<
        MachineLayout,
        PlatformError,
    >)
        ensures
            self.layout_rel(*config, *devices, r),
    ;

    fn create(&self, config: &VmConfig) -> (r: Result<Self::Vm, PlatformError>)
        ensures
            self.create_rel(*config, r),
            r matches Ok(vm) ==> vm.calls() == Seq::<VmCall>::empty(),
    ;
}

/// VM operations run on the caller's thread; no Send/Sync bound is required.
/// `prepare` loads the guest and initializes CPUs/interrupts without running
/// them. `pause` must quiesce every vCPU before returning success. `stop` must
/// always join every worker, including after partial startup, and be
/// idempotent. Drop must also stop workers and destroy all mappings without
/// releasing borrowed RAM.
///
/// Only proofs look at the ghost functions: an implementation that stands
/// outside them may leave them out.
pub trait VirtualMachine: Mapper {
    type Completion;

    /// What tells one completion from another.
    open spec fn token(completion: Self::Completion) -> int {
        arbitrary()
    }

    fn prepare(&mut self, memory: &mut Guest, layout: &MachineLayout) -> (r: Result<
        (),
        PlatformError,
    >)
        ensures
            final(self).calls() == old(self).calls().push(
                VmCall::Prepared { memory: old(memory)@, layout: *layout, result: r },
            ),
            final(memory)@.same(old(memory)@),
    ;

    fn start(&mut self) -> (r: Result<(), PlatformError>)
        ensures
            final(self).calls() == old(self).calls().push(VmCall::Started { result: r }),
    ;

    fn poll_event(&mut self, timeout_ms: u64) -> (r: Result<
        Option<Event<Self::Completion>>,
        PlatformError,
    >)
        ensures
            final(self).calls() == old(self).calls().push(
                VmCall::Polled {
                    timeout_ms,
                    result: observed(r, |c: Self::Completion| Self::token(c)),
                },
            ),
    ;

    fn complete_io(&mut self, completion: Self::Completion, value: u64) -> (r: Result<
        (),
        PlatformError,
    >)
        ensures
            final(self).calls() == old(self).calls().push(
                VmCall::Completed { token: Self::token(completion), value, result: r },
            ),
    ;

    fn set_irq(&mut self, irq: u32, level: bool) -> (r: Result<(), PlatformError>)
        ensures
            final(self).calls() == old(self).calls().push(VmCall::Irq { irq, level, result: r }),
    ;

    fn pause(&mut self) -> (r: Result<(), PlatformError>)
        ensures
            final(self).calls() == old(self).calls().push(VmCall::Paused { result: r }),
    ;

    fn resume(&mut self) -> (r: Result<(), PlatformError>)
        ensures
            final(self).calls() == old(self).calls().push(VmCall::Resumed { result: r }),
    ;

    fn stop(&mut self)
        ensures
            final(self).calls() == old(self).calls().push(VmCall::Stopped),
    ;
}

/// Every region that a layout names, in the order in which it is claimed.
pub open spec fn named_regions(layout: MachineLayout) -> Seq<Claim> {
    layout.ram@.map_values(|r: MemoryRange| claim(IoSpace::Mmio, r.address, r.size)) + seq![
        claim(layout.uart.space, layout.uart.address, layout.uart.size),
    ] + layout.virtio@.map_values(|r: IoRegion| claim(r.space, r.address, r.size)) + match layout.hotplug {
        Some(r) => seq![claim(IoSpace::Mmio, r.address, r.size)],
        None => Seq::empty(),
    }
}

/// No two of `claims` share an address, and each holds one.
pub open spec fn disjoint(claims: Seq<Claim>) -> bool {
    &&& forall|i: int| 0 <= i < claims.len() ==> (#[trigger] claims[i]).address < claims[i].end
    &&& forall|i: int, j: int|
        0 <= i < j < claims.len() ==> !#[trigger] collide(claims[i], claims[j])
}

/// The sizes of `ram` together.
pub open spec fn ram_total(ram: Seq<MemoryRange>) -> int
    decreases ram.len(),
{
    if ram.len() == 0 {
        0
    } else {
        ram_total(ram.drop_last()) + ram.last().size
    }
}

/// Memory ranges end below the last address.
pub open spec fn ram_bounded(ram: Seq<MemoryRange>) -> bool {
    forall|i: int|
        0 <= i < ram.len() ==> 0 < (#[trigger] ram[i]).size && ram[i].address + ram[i].size
            <= u64::MAX && ram[i].size <= usize::MAX
}

/// Device registers end below the last address.
pub open spec fn virtio_bounded(virtio: Seq<IoRegion>) -> bool {
    forall|i: int|
        0 <= i < virtio.len() ==> (#[trigger] virtio[i]).address + virtio[i].size <= u64::MAX
            && virtio[i].space == IoSpace::Mmio
}

/// No region of the layout passes the last address.
pub open spec fn bounded(layout: MachineLayout) -> bool {
    &&& ram_bounded(layout.ram@)
    &&& virtio_bounded(layout.virtio@)
    &&& layout.uart.address + layout.uart.size <= u64::MAX
    &&& layout.hotplug matches Some(r) ==> r.address + r.size <= u64::MAX
}

pub(crate) proof fn lemma_ram_claims(ram: Seq<MemoryRange>)
    ensures
        claim_ram(ram) matches Ok((total, claims)) ==> disjoint(claims) && total == ram_total(ram)
            && ram_bounded(ram) && claims == ram.map_values(
            |r: MemoryRange| claim(IoSpace::Mmio, r.address, r.size),
        ),
    decreases ram.len(),
{
    let f = |r: MemoryRange| claim(IoSpace::Mmio, r.address, r.size);
    if ram.len() > 0 {
        lemma_ram_claims(ram.drop_last());
        if claim_ram(ram) is Ok {
            assert forall|i: int| 0 <= i < ram.len() implies 0 < (#[trigger] ram[i]).size
                && ram[i].address + ram[i].size <= u64::MAX && ram[i].size <= usize::MAX by {
                if i < ram.len() - 1 {
                    assert(ram.drop_last()[i] == ram[i]);
                }
            }
            assert(ram.map_values(f) =~= ram.drop_last().map_values(f).push(f(ram.last())));
        }
    } else {
        assert(ram.map_values(f) =~= Seq::empty());
    }
}

proof fn lemma_virtio_claims(claims: Seq<Claim>, virtio: Seq<IoRegion>)
    requires
        disjoint(claims),
    ensures
        claim_virtio(claims, virtio) matches Ok(all) ==> disjoint(all) && virtio_bounded(virtio)
            && all == claims
            + virtio.map_values(|r: IoRegion| claim(r.space, r.address, r.size)),
    decreases virtio.len(),
{
    let f = |r: IoRegion| claim(r.space, r.address, r.size);
    if virtio.len() > 0 {
        lemma_virtio_claims(claims, virtio.drop_last());
        if claim_virtio(claims, virtio) is Ok {
            assert forall|i: int| 0 <= i < virtio.len() implies (#[trigger] virtio[i]).address
                + virtio[i].size <= u64::MAX && virtio[i].space == IoSpace::Mmio by {
                if i < virtio.len() - 1 {
                    assert(virtio.drop_last()[i] == virtio[i]);
                }
            }
            assert(claims + virtio.map_values(f) =~= (claims + virtio.drop_last().map_values(
                f,
            )).push(f(virtio.last())));
        }
    } else {
        assert(claims + virtio.map_values(f) =~= claims);
    }
}

/// The regions of a layout that was accepted are not empty and pairwise
/// disjoint in their space, and its memory has the configured size.
pub proof fn accepted_regions_are_disjoint(
    layout: MachineLayout,
    config: VmConfig,
    needs: DeviceRequirements,
)
    requires
        layout.claims(config, needs) is Ok,
    ensures
        disjoint(named_regions(layout)),
        ram_total(layout.ram@) == config.memory_mib * MIB,
        layout.hotplug is Some <==> needs.hotplug is Some,
        layout.virtio@.len() == needs.devices@.len(),
        bounded(layout),
{
    lemma_ram_claims(layout.ram@);
    let (total, ram) = claim_ram(layout.ram@)->Ok_0;
    let uart = with_claim(ram, layout.uart.space, layout.uart.address, layout.uart.size)->Ok_0;
    assert(disjoint(uart));
    lemma_virtio_claims(uart, layout.virtio@);
    let virtio = claim_virtio(uart, layout.virtio@)->Ok_0;
    let all = layout.claims(config, needs)->Ok_0;
    assert(all == claim_hotplug(virtio, layout.hotplug, needs.hotplug)->Ok_0);
    assert(disjoint(all));
    assert(named_regions(layout) =~= all);
}

} // verus!

//! Architecture-independent device runtime.
use crate::control::{memory_stopped, Operation};
use crate::devices::block::{valid_name, Block};
use crate::devices::memory::{
    adrift, failures, first_error, granted, held_pieces, in_step, lemma_granted, lemma_no_error,
    process_rel, snapshot, standing, unmaps, MemView, VirtioMem,
};
use crate::devices::mmio::{running, window, write_rel, Mmio, MmioView, VirtioDevice};
use crate::devices::net::{capacity_ok, mac_ok, net_config, Net};
use crate::devices::plugging::{
    held_blocks_are_the_plugged_ones, in_window, lemma_all_unmapped, lemma_no_failures,
    lemma_outside_same, lemma_silent, lemma_stays_in_step, outside, plugged_pieces,
    window_holds_the_plugged_blocks,
};
use crate::devices::queues::{available_rel, pinned_rel, pins_view, Pins, QueuesView};
use crate::devices::Device;
use crate::disks::{name_bytes, Disks};
use crate::error::{DeviceError, Error, MemoryError, PlatformError, RuntimeError, SerialError};
use crate::guest::{
    allocations, handles, lemma_allocations, ordered, pieces, ranges, seen, Guest, Memory, Piece,
    Ram, Region,
};
use crate::math::through;
use crate::memory::{granule_mib, MemoryControl, MemoryLifecycle, MemoryStatus, MIB};
use crate::net::NetDevice;
use crate::platform::{
    aligned, bounded, claim, collide, named_regions, observed, DeviceKind, DeviceRequirements,
    Event, IoAccess, IoRegion, IoSpace, MachineLayout, MemoryRange, MemoryRequirement, Platform,
    Seen, VirtualMachine, VmCall, VmConfig,
};
use crate::serial::{
    output_rel, poll_input, poll_rel, uart_read, SerialCall, SerialIo, Uart, UartView,
};
use crate::storage::BlockStorage;
use vstd::prelude::*;

verus! {

/// How far startup has come.
#[derive(Clone, Copy, Debug, PartialEq, Eq, Structural)]
pub enum Stage {
    Allocate,
    Create,
    MapBase,
    Prepare,
    Start,
    Ready,
}

/// How far cleaning up has come.
#[derive(Clone, Copy, Debug, PartialEq, Eq, Structural)]
pub enum Closing {
    /// It has not begun.
    Open,
    /// No vCPU runs any more.
    Stopped,
    /// The devices were flushed.
    Flushed,
    /// Dynamic memory was unmapped.
    Unplugged,
    /// Base memory was unmapped.
    Unmapped,
    /// The VM is gone.
    Destroyed,
    /// So are the memory that it mapped and the devices.
    Released,
}

/// A VM with its devices, from layout to cleanup. Its parts are dropped in the
/// order in which they stand here: the VM goes before the memory it maps.
pub struct Runtime<VM: VirtualMachine, BS: BlockStorage, ND: NetDevice> {
    pub vm: Option<VM>,
    pub base: Vec<Region>,
    pub view: Option<Guest>,
    pub devices: Vec<Mmio<Device<BS, ND>>>,
    pub layout: MachineLayout,
    /// How many regions of base memory are mapped.
    pub mapped: usize,
    pub has_memory: bool,
    pub stage: Stage,
    pub closing: Closing,
}

/// What the devices of a VM ask of its layout.
pub open spec fn needs_rel<BS>(
    disks: Seq<(String, BS)>,
    net: bool,
    memory: Option<MemView>,
    needs: DeviceRequirements,
) -> bool {
    let n = disks.len() as int;
    let list = needs.devices@;
    &&& list.len() == n + (if net {
        1int
    } else {
        0int
    }) + (if memory is Some {
        1int
    } else {
        0int
    })
    &&& forall|i: int| 0 <= i < n ==> ((#[trigger] list[i]) matches DeviceKind::Block(name) && name@
        == disks[i].0@)
    &&& net ==> list[n] is Net
    &&& memory is Some ==> list.last() is Memory
    &&& needs.hotplug == match memory {
        None => None::<MemoryRequirement>,
        Some(d) => Some(
            MemoryRequirement {
                capacity: d.capacity,
                alignment: if d.block < 128 * MIB {
                    (128 * MIB) as u64
                } else {
                    d.block
                },
            },
        ),
    }
}

/// What the devices of a VM ask of its layout: disks in name order, then
/// network and dynamic memory.
pub fn requirements<BS, ND>(disks: &Disks<BS>, net: &Option<ND>, memory: &Option<VirtioMem>) -> (r:
    DeviceRequirements)
    ensures
        needs_rel(
            disks.list(),
            net is Some,
            match memory {
                Some(m) => Some(m@),
                None => None,
            },
            r,
        ),
{
    let mut devices: Vec<DeviceKind> = Vec::new();
    let mut i: usize = 0;
    while i < disks.len()
        invariant
            i <= disks.list().len(),
            devices@.len() == i,
            forall|k: int|
                0 <= k < i ==> ((#[trigger] devices@[k]) matches DeviceKind::Block(name) && name@
                    == disks.list()[k].0@),
        decreases disks.list().len() - i,
    {
        devices.push(DeviceKind::Block(disks.name(i).clone()));
        i = i + 1;
    }
    if net.is_some() {
        devices.push(DeviceKind::Net);
    }
    let hotplug: Option<MemoryRequirement> = match memory {
        None => None,
        Some(m) => {
            devices.push(DeviceKind::Memory);
            Some(MemoryRequirement { capacity: m.capacity, alignment: m.alignment() })
        },
    };
    DeviceRequirements { devices, hotplug }
}

/// Why the devices of a VM cannot be assembled in `layout`.
pub open spec fn assembly_error<BS: BlockStorage, ND: NetDevice>(
    config: VmConfig,
    layout: MachineLayout,
    needs: DeviceRequirements,
    disks: Seq<(String, BS)>,
    net: Option<ND>,
) -> Option<Error> {
    match layout.claims(config, needs) {
        Err(e) => Some(Error::Platform(e)),
        Ok(_) => if exists|i: int|
            0 <= i < disks.len() && !valid_name(name_bytes((#[trigger] disks[i]).0)) {
            Some(
                Error::Device(
                    DeviceError::InvalidBlockName { name: disks[first_invalid(disks)].0 },
                ),
            )
        } else {
            match net {
                None => None,
                Some(n) => if !capacity_ok(ND::MTU, n.frame_limit()) {
                    Some(
                        Error::Device(
                            DeviceError::InvalidNetworkMtuFrameCapacity {
                                mtu: ND::MTU,
                                capacity: n.frame_limit(),
                            },
                        ),
                    )
                } else if !mac_ok(n.mac()@) {
                    Some(Error::Device(DeviceError::NetworkMacMustBeNonzeroUnicast))
                } else {
                    None
                },
            }
        },
    }
}

/// The first disk whose name cannot be a serial.
pub open spec fn first_invalid<BS>(disks: Seq<(String, BS)>) -> int
    decreases disks.len(),
{
    if disks.len() == 0 {
        0
    } else if !valid_name(name_bytes(disks[0].0)) {
        0
    } else {
        1 + first_invalid(disks.skip(1))
    }
}

proof fn lemma_first_invalid<BS>(disks: Seq<(String, BS)>, k: int)
    requires
        0 <= k < disks.len(),
        !valid_name(name_bytes(disks[k].0)),
        forall|i: int| 0 <= i < k ==> valid_name(name_bytes((#[trigger] disks[i]).0)),
    ensures
        first_invalid(disks) == k,
    decreases k,
{
    if k > 0 {
        assert(valid_name(name_bytes(disks[0].0)));
        let rest = disks.skip(1);
        assert(rest[k - 1] == disks[k]);
        assert forall|i: int| 0 <= i < k - 1 implies valid_name(
            name_bytes((#[trigger] rest[i]).0),
        ) by {
            assert(rest[i] == disks[i + 1]);
        }
        lemma_first_invalid(rest, k - 1);
    }
}

/// A device as the driver first finds it.
pub open spec fn fresh_device<BS: BlockStorage, ND: NetDevice>(
    m: MmioView<Device<BS, ND>>,
) -> bool {
    m == MmioView::fresh(m.device, m.device.offered() | crate::devices::mmio::VERSION_1)
}

/// The devices of a VM: its disks in name order, then network and memory.
pub open spec fn assembled<BS: BlockStorage, ND: NetDevice>(
    disks: Seq<(String, BS)>,
    net: Option<ND>,
    memory: Option<MemView>,
    devices: Seq<Mmio<Device<BS, ND>>>,
) -> bool {
    let n = disks.len() as int;
    &&& devices.len() == n + (if net is Some {
        1int
    } else {
        0int
    }) + (if memory is Some {
        1int
    } else {
        0int
    })
    &&& forall|i: int|
        0 <= i < devices.len() ==> (#[trigger] devices[i])@.wf() && fresh_device(devices[i]@)
    &&& forall|i: int|
        0 <= i < n ==> ((#[trigger] devices[i]).device matches Device::Block(b) && b.disk
            == disks[i].1 && b.name == disks[i].0 && b.id@ == window(
            name_bytes(disks[i].0),
            0,
            20,
        ))
    &&& net matches Some(backend) ==> (devices[n].device matches Device::Net(d) && d.backend
        == backend && d.config@ == net_config(backend.mac()@, ND::MTU) && d.limit
        == backend.frame_limit() && d.pending_tx is None)
    &&& memory matches Some(v) ==> (devices.last().device matches Device::Mem(d) && d@ == v)
}

/// The registers and queues of every device.
pub open spec fn views<BS: BlockStorage, ND: NetDevice>(
    devices: Seq<Mmio<Device<BS, ND>>>,
) -> Seq<MmioView<Device<BS, ND>>> {
    devices.map_values(|d: Mmio<Device<BS, ND>>| d@)
}

/// Every device is in order, and only the last one may be dynamic memory.
pub open spec fn devices_ok<BS: BlockStorage, ND: NetDevice>(
    devices: Seq<Mmio<Device<BS, ND>>>,
    has_memory: bool,
) -> bool {
    &&& forall|i: int| 0 <= i < devices.len() ==> (#[trigger] devices[i])@.wf()
    &&& forall|i: int|
        0 <= i < devices.len() ==> ((#[trigger] devices[i]).device is Mem <==> has_memory && i
            == devices.len() - 1)
    &&& has_memory ==> devices.len() > 0
}

impl<VM: VirtualMachine, BS: BlockStorage, ND: NetDevice> Runtime<VM, BS, ND> {
    /// Startup has come as far as its stage says.
    pub open spec fn wf(self) -> bool {
        &&& self.closing == Closing::Open
        &&& bounded(self.layout)
        &&& self.layout.ram@.len() > 0
        &&& self.devices@.len() == self.layout.virtio@.len()
        &&& devices_ok(self.devices@, self.has_memory)
        &&& self.mapped <= self.base@.len()
        &&& self.stage == Stage::Allocate ==> self.base@.len() == 0 && self.view is None
        &&& self.stage != Stage::Allocate ==> self.base@.len() > 0 && self.view is Some
        &&& self.vm is None <==> self.stage == Stage::Allocate || self.stage == Stage::Create
        &&& self.vm is None ==> self.mapped == 0
        &&& self.stage == Stage::MapBase ==> self.mapped < self.base@.len()
    }

    /// Assembles the devices in a layout that the platform chose for them.
    pub fn assemble(
        config: &VmConfig,
        layout: MachineLayout,
        needs: &DeviceRequirements,
        disks: Disks<BS>,
        net: Option<ND>,
        memory: Option<VirtioMem>,
        control: &Option<MemoryControl>,
    ) -> (r: Result<Self, Error>)
        requires
            needs_rel(
                disks.list(),
                net is Some,
                match memory {
                    Some(m) => Some(m@),
                    None => None,
                },
                *needs,
            ),
            memory is Some <==> control is Some,
            memory matches Some(m) ==> m.sound() && m@.agrees(control->Some_0@) && m@.blocks
                == Set::<u64>::empty() && m@.retained.len() == 0,
        ensures
            r is Err <==> assembly_error(*config, layout, *needs, disks.list(), net) is Some,
            r matches Err(e) ==> Some(e) == assembly_error(
                *config,
                layout,
                *needs,
                disks.list(),
                net,
            ),
            r matches Ok(rt) ==> {
                &&& rt.wf()
                &&& rt.layout == layout
                &&& rt.vm is None
                &&& rt.base@.len() == 0
                &&& rt.view is None
                &&& rt.mapped == 0
                &&& rt.has_memory == (memory is Some)
                &&& rt.stage == Stage::Allocate
                &&& assembled(
                    disks.list(),
                    net,
                    match memory {
                        Some(m) => Some(
                            MemView {
                                start: layout.hotplug->Some_0.address,
                                requested: (control->Some_0@.requested_size_mib * MIB) as u64,
                                ..m@
                            },
                        ),
                        None => None,
                    },
                    rt.devices@,
                )
                &&& rt.has_memory ==> memory_free(
                    rt.devices@,
                    control->Some_0@,
                    ram_ranges(layout.ram@),
                )
            },
    {
        match layout.validate(config, needs) {
            Err(e) => {
                return Err(Error::Platform(e));
            },
            Ok(_) => {},
        }
        let ghost listed = disks.list();
        let has_memory: bool = memory.is_some();
        let mut attached: Option<VirtioMem> = memory;
        match (&mut attached, control, layout.hotplug) {
            (Some(m), Some(c), Some(range)) => {
                proof {
                    let b = c@.block_size_mib;
                    assert(granule_mib(b) * MIB == needs.hotplug->Some_0.alignment);
                    crate::platform::accepted_regions_are_disjoint(layout, *config, *needs);
                    assert(aligned(range.address, needs.hotplug->Some_0.alignment));
                    assert(range.address + range.size <= u64::MAX);
                }
                match m.attach_at(range.address, c) {
                    Err(e) => {
                        return Err(Error::Memory(e));
                    },
                    Ok(_) => {},
                }
            },
            _ => {},
        }
        let mut devices: Vec<Mmio<Device<BS, ND>>> = Vec::new();
        let mut list: Vec<(String, BS)> = disks.into_list();
        let count: usize = list.len();
        let mut i: usize = 0;
        while list.len() > 0
            invariant
                i + list@.len() == listed.len(),
                listed.len() == count,
                listed == disks.list(),
                list@ == listed.skip(i as int),
                devices@.len() == i,
                layout.claims(*config, *needs) is Ok,
                forall|k: int| 0 <= k < i ==> valid_name(name_bytes((#[trigger] listed[k]).0)),
                forall|k: int|
                    0 <= k < i ==> (#[trigger] devices@[k])@.wf() && fresh_device(devices@[k]@),
                forall|k: int|
                    0 <= k < i ==> ((#[trigger] devices@[k]).device matches Device::Block(b)
                        && b.disk == listed[k].1 && b.name == listed[k].0 && b.id@ == window(
                        name_bytes(listed[k].0),
                        0,
                        20,
                    )),
            decreases list@.len(),
        {
            assert(list@[0] == listed[i as int]);
            let (name, disk): (String, BS) = list.remove(0);
            assert(list@ =~= listed.skip(i + 1));
            match Block::new(name, disk) {
                Err(e) => {
                    proof {
                        lemma_first_invalid(listed, i as int);
                        assert(!valid_name(name_bytes(listed[i as int].0)));
                    }
                    return Err(Error::Device(e));
                },
                Ok(b) => {
                    devices.push(Mmio::new(Device::Block(b)));
                },
            }
            i = i + 1;
        }
        match net {
            None => {},
            Some(backend) => match Net::new(backend) {
                Err(e) => {
                    return Err(Error::Device(e));
                },
                Ok(d) => {
                    devices.push(Mmio::new(Device::Net(d)));
                },
            },
        }
        match attached {
            None => {},
            Some(d) => {
                devices.push(Mmio::new(Device::Mem(d)));
            },
        }
        proof {
            crate::platform::accepted_regions_are_disjoint(layout, *config, *needs);
            if has_memory {
                let d = devices@.last().device->Mem_0@;
                let list = ram_ranges(layout.ram@);
                let named = named_regions(layout);
                let hot = layout.hotplug->Some_0;
                let h = claim(IoSpace::Mmio, hot.address, hot.size);
                assert(named[named.len() - 1] == h);
                assert forall|k: int|
                    0 <= k < list.len() && (#[trigger] list[k]).0 < d.start + d.capacity && d.start
                        < list[k].0 + list[k].1 implies d.blocks.contains(list[k].0) && list[k].1
                    == d.block by {
                    assert(layout.ram@[k].address + layout.ram@[k].size <= u64::MAX);
                    assert(named[k] == claim(
                        IoSpace::Mmio,
                        layout.ram@[k].address,
                        layout.ram@[k].size,
                    ));
                    assert(collide(named[k], named[named.len() - 1]));
                }
            }
        }
        Ok(
            Runtime {
                layout,
                devices,
                vm: None,
                base: Vec::new(),
                view: None,
                mapped: 0,
                has_memory,
                stage: Stage::Allocate,
                closing: Closing::Open,
            },
        )
    }
}

/// First address and length of each range of base memory.
pub open spec fn ram_ranges(ram: Seq<MemoryRange>) -> Seq<(u64, u64)> {
    ram.map_values(|r: MemoryRange| (r.address, r.size))
}

/// What the VM was asked for so far; nothing, if there is none.
pub open spec fn calls_of<VM: VirtualMachine>(vm: Option<VM>) -> Seq<VmCall> {
    match vm {
        Some(vm) => vm.calls(),
        None => Seq::empty(),
    }
}

/// What is fixed of guest memory; nothing, if there is none yet.
pub open spec fn memory_of(view: Option<Guest>) -> Memory {
    match view {
        Some(view) => view@,
        None => Memory { regions: Seq::empty(), backings: Map::empty(), accesses: Seq::empty() },
    }
}

/// Memory that holds `base`, before anything was done to it.
pub open spec fn base_memory(base: Seq<Region>) -> Memory {
    Memory { regions: ranges(base), backings: allocations(base), accesses: Seq::empty() }
}

/// A platform failure as a failure of the VM.
pub open spec fn lifted(r: Result<(), PlatformError>) -> Result<(), Error> {
    match r {
        Ok(_) => Ok(()),
        Err(e) => Err(Error::Platform(e)),
    }
}

/// The next step of startup. It is done once, in order: base memory, the VM,
/// its mappings one by one, the guest, its vCPUs. `false` means that there is
/// no step left.
pub open spec fn advance_rel<P: Platform, BS: BlockStorage, ND: NetDevice>(
    platform: P,
    config: VmConfig,
    s0: Runtime<P::Vm, BS, ND>,
    s1: Runtime<P::Vm, BS, ND>,
    r: Result<bool, Error>,
) -> bool {
    let wanted = ram_ranges(s0.layout.ram@);
    &&& s1.layout == s0.layout
    &&& s1.devices == s0.devices
    &&& s1.has_memory == s0.has_memory
    &&& s1.closing == s0.closing
    &&& match s0.stage {
        Stage::Allocate => {
            &&& s1.vm is None
            &&& s1.mapped == 0
            &&& r is Ok ==> {
                &&& r == Ok::<bool, Error>(true)
                &&& ordered(wanted)
                &&& s1.stage == Stage::Create
                &&& ranges(s1.base@) == wanted
                &&& memory_of(s1.view) == base_memory(s1.base@)
            }
            &&& r matches Err(e) ==> {
                &&& e matches Error::Memory(m) && (m is GuestMemory || (m is Regions && !ordered(
                    wanted,
                )))
                &&& s1.stage == s0.stage
                &&& s1.base == s0.base
                &&& s1.view == s0.view
            }
        },
        Stage::Create => {
            &&& s1.base == s0.base
            &&& s1.view == s0.view
            &&& s1.mapped == s0.mapped
            &&& r is Ok ==> r == Ok::<bool, Error>(true) && s1.stage == Stage::MapBase && s1.vm
                is Some && calls_of(s1.vm) == Seq::<VmCall>::empty() && platform.create_rel(
                config,
                Ok(s1.vm->0),
            )
            &&& r matches Err(e) ==> e is Platform && platform.create_rel(
                config,
                Err(e->Platform_0),
            ) && s1.stage == s0.stage && s1.vm is None
        },
        Stage::MapBase => {
            &&& s1.base == s0.base
            &&& s1.view == s0.view
            &&& s1.vm is Some
            &&& exists|a: Result<(), MemoryError>|
                #[trigger] through(a) && calls_of(s1.vm) == calls_of(s0.vm).push(
                    VmCall::Mapped { piece: s0.base@[s0.mapped as int].piece(), result: a },
                ) && match a {
                    Err(e) => r == Err::<bool, Error>(Error::Memory(e)) && s1.stage == s0.stage
                        && s1.mapped == s0.mapped,
                    Ok(_) => r == Ok::<bool, Error>(true) && s1.mapped == s0.mapped + 1 && s1.stage
                        == if s1.mapped == s0.base@.len() {
                        Stage::Prepare
                    } else {
                        Stage::MapBase
                    },
                }
        },
        Stage::Prepare => {
            &&& s1.base == s0.base
            &&& s1.view is Some
            &&& memory_of(s1.view).same(memory_of(s0.view))
            &&& s1.mapped == s0.mapped
            &&& s1.vm is Some
            &&& exists|a: Result<(), PlatformError>|
                #[trigger] through(a) && calls_of(s1.vm) == calls_of(s0.vm).push(
                    VmCall::Prepared {
                        memory: memory_of(s0.view),
                        layout: s0.layout,
                        result: a,
                    },
                ) && stepped(a, Stage::Prepare, Stage::Start, s1.stage, r)
        },
        Stage::Start => {
            &&& s1.base == s0.base
            &&& s1.view == s0.view
            &&& s1.mapped == s0.mapped
            &&& s1.vm is Some
            &&& exists|a: Result<(), PlatformError>|
                #[trigger] through(a) && calls_of(s1.vm) == calls_of(s0.vm).push(
                    VmCall::Started { result: a },
                ) && stepped(a, Stage::Start, Stage::Ready, s1.stage, r)
        },
        Stage::Ready => s1 == s0 && r == Ok::<bool, Error>(false),
    }
}

/// A step that the platform answered with `a`.
pub open spec fn stepped(
    a: Result<(), PlatformError>,
    from: Stage,
    to: Stage,
    stage: Stage,
    r: Result<bool, Error>,
) -> bool {
    match a {
        Ok(_) => stage == to && r == Ok::<bool, Error>(true),
        Err(e) => stage == from && r == Err::<bool, Error>(Error::Platform(e)),
    }
}

impl<VM: VirtualMachine, BS: BlockStorage, ND: NetDevice> Runtime<VM, BS, ND> {
    /// Allocates base memory.
    fn allocate(ram: &Vec<MemoryRange>) -> (r: Result<(Vec<Region>, Guest), MemoryError>)
        requires
            crate::platform::ram_bounded(ram@),
            ram@.len() > 0,
        ensures
            r matches Ok((base, view)) ==> {
                &&& ordered(ram_ranges(ram@))
                &&& ranges(base@) == ram_ranges(ram@)
                &&& view@ == base_memory(base@)
            },
            r matches Err(e) ==> e is GuestMemory || (e is Regions && !ordered(ram_ranges(ram@))),
    {
        let mut rams: Vec<Ram> = Vec::new();
        let mut i: usize = 0;
        while i < ram.len()
            invariant
                i <= ram@.len(),
                crate::platform::ram_bounded(ram@),
                rams@.len() == i,
                forall|k: int|
                    0 <= k < i ==> (#[trigger] rams@[k]).handle().range() == (
                        ram@[k].address,
                        ram@[k].size,
                    ),
            decreases ram@.len() - i,
        {
            assert(0 < ram@[i as int].size);
            match Ram::new(ram[i].address, ram[i].size as usize) {
                Err(e) => {
                    return Err(e);
                },
                Ok(region) => {
                    rams.push(region);
                },
            }
            i = i + 1;
        }
        assert forall|k: int| 0 <= k < rams@.len() implies 0 < (
        #[trigger] rams@[k]).handle().range().1 && rams@[k].handle().range().0
            + rams@[k].handle().range().1 <= u64::MAX by {
            assert(0 < ram@[k].size);
        }
        assert(ranges(handles(rams@)) =~= ram_ranges(ram@));
        Guest::new(rams)
    }

    /// Does the next step of startup. Between steps a stop may be honoured.
    pub fn advance<P: Platform<Vm = VM>>(&mut self, config: &VmConfig, platform: &P) -> (r: Result<
        bool,
        Error,
    >)
        requires
            old(self).wf(),
        ensures
            final(self).wf(),
            advance_rel(*platform, *config, *old(self), *final(self), r),
    {
        match self.stage {
            Stage::Allocate => match Self::allocate(&self.layout.ram) {
                Err(e) => Err(Error::Memory(e)),
                Ok((base, view)) => {
                    assert(ranges(base@).len() == base@.len());
                    assert(ram_ranges(self.layout.ram@).len() == self.layout.ram@.len());
                    self.base = base;
                    self.view = Some(view);
                    self.stage = Stage::Create;
                    Ok(true)
                },
            },
            Stage::Create => match platform.create(config) {
                Err(e) => Err(Error::Platform(e)),
                Ok(vm) => {
                    self.vm = Some(vm);
                    self.stage = Stage::MapBase;
                    Ok(true)
                },
            },
            Stage::MapBase => {
                let count: usize = self.base.len();
                let a: Result<(), MemoryError> = match &mut self.vm {
                    Some(vm) => vm.map(&self.base[self.mapped]),
                    None => Ok(()),
                };
                assert(through(a));
                match a {
                    Err(e) => Err(Error::Memory(e)),
                    Ok(_) => {
                        self.mapped = self.mapped + 1;
                        if self.mapped == count {
                            self.stage = Stage::Prepare;
                        }
                        Ok(true)
                    },
                }
            },
            Stage::Prepare => {
                let a: Result<(), PlatformError> = match (&mut self.vm, &mut self.view) {
                    (Some(vm), Some(view)) => vm.prepare(view, &self.layout),
                    _ => Ok(()),
                };
                assert(through(a));
                match a {
                    Err(e) => Err(Error::Platform(e)),
                    Ok(_) => {
                        self.stage = Stage::Start;
                        Ok(true)
                    },
                }
            },
            Stage::Start => {
                let a: Result<(), PlatformError> = match &mut self.vm {
                    Some(vm) => vm.start(),
                    None => Ok(()),
                };
                assert(through(a));
                match a {
                    Err(e) => Err(Error::Platform(e)),
                    Ok(_) => {
                        self.stage = Stage::Ready;
                        Ok(true)
                    },
                }
            },
            Stage::Ready => Ok(false),
        }
    }
}

/// Whether an access lies in a region.
pub open spec fn inside<C>(region: IoRegion, a: IoAccess<C>) -> bool {
    &&& a.space == region.space
    &&& region.address <= a.address
    &&& a.address + a.width <= u64::MAX
    &&& a.address + a.width <= region.address + region.size
}

/// Where an access goes.
#[derive(Clone, Copy, Debug, PartialEq, Eq, Structural)]
pub enum Route {
    Uart { register: u8 },
    Slot { slot: usize, offset: u64 },
    Nowhere,
}

/// The first of `regions` from number `i` on that the access lies in.
pub open spec fn slot_of<C>(regions: Seq<IoRegion>, a: IoAccess<C>, i: int) -> int
    decreases regions.len() - i,
{
    if i >= regions.len() {
        regions.len() as int
    } else if inside(regions[i], a) {
        i
    } else {
        slot_of(regions, a, i + 1)
    }
}

/// Where an access goes: single bytes of the first eight to the UART, others to
/// the first device whose region holds all of it.
pub open spec fn route<C>(layout: MachineLayout, a: IoAccess<C>) -> Route {
    if inside(layout.uart, a) && a.address - layout.uart.address < 8 && a.width == 1 {
        Route::Uart { register: (a.address - layout.uart.address) as u8 }
    } else {
        let slot = slot_of(layout.virtio@, a, 0);
        if slot < layout.virtio@.len() {
            Route::Slot {
                slot: slot as usize,
                offset: (a.address - layout.virtio@[slot].address) as u64,
            }
        } else {
            Route::Nowhere
        }
    }
}

proof fn lemma_slot_of<C>(regions: Seq<IoRegion>, a: IoAccess<C>, i: int)
    requires
        0 <= i <= regions.len(),
    ensures
        i <= slot_of(regions, a, i) <= regions.len(),
        slot_of(regions, a, i) < regions.len() ==> inside(regions[slot_of(regions, a, i)], a),
    decreases regions.len() - i,
{
    if i < regions.len() && !inside(regions[i], a) {
        lemma_slot_of(regions, a, i + 1);
    }
}

/// An access goes to a region that holds all of it.
pub proof fn routes_stay_inside<C>(layout: MachineLayout, a: IoAccess<C>)
    ensures
        match route(layout, a) {
            Route::Uart { register } => inside(layout.uart, a) && register < 8 && a.width == 1,
            Route::Slot { slot, offset } => slot_of(layout.virtio@, a, 0) < layout.virtio@.len()
                && inside(layout.virtio@[slot_of(layout.virtio@, a, 0)], a),
            Route::Nowhere => forall|i: int|
                0 <= i < layout.virtio@.len() ==> !inside(#[trigger] layout.virtio@[i], a),
        },
{
    lemma_slot_of(layout.virtio@, a, 0);
    if route(layout, a) is Nowhere {
        lemma_no_slot(layout.virtio@, a, 0);
    }
}

proof fn lemma_no_slot<C>(regions: Seq<IoRegion>, a: IoAccess<C>, i: int)
    requires
        0 <= i <= regions.len(),
        slot_of(regions, a, i) == regions.len(),
    ensures
        forall|k: int| i <= k < regions.len() ==> !inside(#[trigger] regions[k], a),
    decreases regions.len() - i,
{
    if i < regions.len() {
        lemma_no_slot(regions, a, i + 1);
    }
}

fn is_inside<C>(region: &IoRegion, a: &IoAccess<C>) -> (r: bool)
    requires
        region.address + region.size <= u64::MAX,
        a.width <= 8,
    ensures
        r == inside(*region, *a),
{
    if a.space != region.space || a.address < region.address {
        return false;
    }
    match a.address.checked_add(a.width as u64) {
        None => false,
        Some(end) => end <= region.address + region.size,
    }
}

/// Decides where an access goes.
pub fn route_access<C>(layout: &MachineLayout, a: &IoAccess<C>) -> (r: Route)
    requires
        bounded(*layout),
        a.width <= 8,
    ensures
        r == route(*layout, *a),
{
    if is_inside(&layout.uart, a) && a.address - layout.uart.address < 8 && a.width == 1 {
        return Route::Uart { register: (a.address - layout.uart.address) as u8 };
    }
    let mut slot: usize = 0;
    while slot < layout.virtio.len()
        invariant
            slot <= layout.virtio@.len(),
            bounded(*layout),
            a.width <= 8,
            slot_of(layout.virtio@, *a, 0) == slot_of(layout.virtio@, *a, slot as int),
            !(inside(layout.uart, *a) && a.address - layout.uart.address < 8 && a.width == 1),
        decreases layout.virtio@.len() - slot,
    {
        assert(layout.virtio@[slot as int].address + layout.virtio@[slot as int].size <= u64::MAX);
        if is_inside(&layout.virtio[slot], a) {
            return Route::Slot { slot, offset: a.address - layout.virtio[slot].address };
        }
        slot = slot + 1;
    }
    Route::Nowhere
}

/// What an access may change: the UART and its host side, the devices, guest
/// memory and the VM.
pub struct Turn<BS: BlockStorage, ND: NetDevice> {
    pub uart: UartView,
    pub serial: Seq<SerialCall>,
    pub devices: Seq<MmioView<Device<BS, ND>>>,
    pub memory: Memory,
    pub calls: Seq<VmCall>,
}

/// Answering an access with `value`.
pub open spec fn answered<BS: BlockStorage, ND: NetDevice>(
    s0: Turn<BS, ND>,
    token: int,
    value: u64,
    s1: Turn<BS, ND>,
    r: Result<(), Error>,
) -> bool {
    exists|a: Result<(), PlatformError>|
        #[trigger] through(a) && s1 == (Turn {
            calls: s0.calls.push(VmCall::Completed { token, value, result: a }),
            ..s0
        }) && r == lifted(a)
}

/// Serving an access of the guest: it is answered exactly where it was carried
/// out.
pub open spec fn access_rel<C, BS: BlockStorage, ND: NetDevice>(
    layout: MachineLayout,
    a: IoAccess<C>,
    token: int,
    s0: Turn<BS, ND>,
    s1: Turn<BS, ND>,
    r: Result<(), Error>,
) -> bool {
    if a.width != 1 && a.width != 2 && a.width != 4 && a.width != 8 {
        s1 == s0 && r == Err::<(), Error>(
            Error::Runtime(RuntimeError::InvalidIoWidth { width: a.width }),
        )
    } else {
        match route(layout, a) {
            Route::Nowhere => s1 == s0 && r == Err::<(), Error>(
                Error::Runtime(RuntimeError::UnmappedIo { address: a.address, width: a.width }),
            ),
            Route::Uart { register } => if a.write {
                exists|s: Turn<BS, ND>, w: Result<(), SerialError>|
                    {
                        &&& #[trigger] through((s, w))
                        &&& output_rel(
                            s0.uart,
                            s0.serial,
                            register,
                            (a.value % 0x100) as u8,
                            s.uart,
                            s.serial,
                            w,
                        )
                        &&& s == (Turn { uart: s.uart, serial: s.serial, ..s0 })
                        &&& match w {
                            Err(e) => s1 == s && r == Err::<(), Error>(Error::Serial(e)),
                            Ok(_) => answered(s, token, 0, s1, r),
                        }
                    }
            } else {
                let (uart, value) = uart_read(s0.uart, register);
                &&& answered(Turn { uart, ..s0 }, token, value as u64, s1, r)
                &&& uart.input == if s0.uart.data(register) {
                    s0.uart.rest()
                } else {
                    s0.uart.input
                }
                &&& s0.uart.data(register) ==> value == s0.uart.next()
            },
            Route::Slot { slot, offset } => if !a.write {
                answered(
                    s0,
                    token,
                    s0.devices[slot as int].register(offset, a.width as int) as u64,
                    s1,
                    r,
                )
            } else if a.width != 4 {
                s1 == s0 && r == Err::<(), Error>(
                    Error::Runtime(RuntimeError::InvalidMmioWidth { width: a.width }),
                )
            } else {
                exists|s: Turn<BS, ND>, w: Result<(), DeviceError>|
                    {
                        &&& #[trigger] through((s, w))
                        &&& write_rel(
                            s0.devices[slot as int],
                            offset,
                            (a.value % 0x1_0000_0000) as u32,
                            s0.memory,
                            s.devices[slot as int],
                            s.memory,
                            w,
                        )
                        &&& s == (Turn {
                            devices: s0.devices.update(slot as int, s.devices[slot as int]),
                            memory: s.memory,
                            ..s0
                        })
                        &&& match w {
                            Err(e) => s1 == s && r == Err::<(), Error>(Error::Device(e)),
                            Ok(_) => answered(s, token, 0, s1, r),
                        }
                    }
            },
        }
    }
}

impl<VM: VirtualMachine, BS: BlockStorage, ND: NetDevice> Runtime<VM, BS, ND> {
    /// What a turn may change.
    pub open spec fn turn(self, uart: UartView, serial: Seq<SerialCall>) -> Turn<BS, ND> {
        Turn {
            uart,
            serial,
            devices: views(self.devices@),
            memory: memory_of(self.view),
            calls: calls_of(self.vm),
        }
    }

    /// Nothing but what a turn may change differs.
    pub open spec fn kept(self, before: Self) -> bool {
        &&& self.layout == before.layout
        &&& self.base == before.base
        &&& self.mapped == before.mapped
        &&& self.has_memory == before.has_memory
        &&& self.stage == before.stage
        &&& self.closing == before.closing
        &&& self.vm is Some == before.vm is Some
        &&& self.view is Some == before.view is Some
        &&& self.devices@.len() == before.devices@.len()
    }

    /// Serves an access of the guest.
    pub fn handle_io<SI: SerialIo>(
        &mut self,
        a: IoAccess<VM::Completion>,
        uart: &mut Uart,
        io: &mut SI,
    ) -> (r: Result<(), Error>)
        requires
            old(self).wf(),
            old(self).stage == Stage::Ready,
            old(uart)@.wf(),
        ensures
            final(self).wf(),
            final(self).kept(*old(self)),
            final(uart)@.wf(),
            memory_of(final(self).view).same(memory_of(old(self).view)),
            memory_kept(old(self).devices@, final(self).devices@),
            access_rel(
                old(self).layout,
                a,
                VM::token(a.completion),
                old(self).turn(old(uart)@, old(io).calls()),
                final(self).turn(final(uart)@, final(io).calls()),
                r,
            ),
            old(self).consistent() && !lost(r) ==> final(self).consistent(),
    {
        proof {
            lemma_kept_in_step(*self);
        }
        let ghost s0 = self.turn(uart@, io.calls());
        let ghost token = VM::token(a.completion);
        let ghost devices0 = self.devices@;
        if a.width != 1 && a.width != 2 && a.width != 4 && a.width != 8 {
            return Err(Error::Runtime(RuntimeError::InvalidIoWidth { width: a.width }));
        }
        proof {
            lemma_slot_of(self.layout.virtio@, a, 0);
        }
        let value: u64 = match route_access(&self.layout, &a) {
            Route::Nowhere => {
                return Err(
                    Error::Runtime(
                        RuntimeError::UnmappedIo { address: a.address, width: a.width },
                    ),
                );
            },
            Route::Uart { register } => if a.write {
                let w: Result<(), SerialError> = uart.write(register, (a.value % 0x100) as u8, io);
                let ghost s = self.turn(uart@, io.calls());
                assert(through((s, w)));
                match w {
                    Err(e) => {
                        return Err(Error::Serial(e));
                    },
                    Ok(_) => 0,
                }
            } else {
                uart.read(register) as u64
            },
            Route::Slot { slot, offset } => if a.write {
                if a.width != 4 {
                    return Err(Error::Runtime(RuntimeError::InvalidMmioWidth { width: a.width }));
                }
                assert(devices0[slot as int]@.wf());
                let w: Result<(), DeviceError> = match &mut self.view {
                    Some(view) => self.devices[slot].write(
                        offset,
                        (a.value % 0x1_0000_0000) as u32,
                        view,
                    ),
                    None => Ok(()),
                };
                let ghost s = self.turn(uart@, io.calls());
                proof {
                    assert(views(self.devices@) =~= views(devices0).update(
                        slot as int,
                        self.devices@[slot as int]@,
                    ));
                    lemma_write_keeps_kind(
                        devices0[slot as int]@,
                        offset,
                        (a.value % 0x1_0000_0000) as u32,
                        s0.memory,
                        self.devices@[slot as int]@,
                        s.memory,
                        w,
                    );
                    assert(devices_ok(self.devices@, self.has_memory)) by {
                        assert forall|i: int| 0 <= i < self.devices@.len() implies (
                        #[trigger] self.devices@[i])@.wf() && (self.devices@[i].device is Mem
                            <==> self.has_memory && i == self.devices@.len() - 1) by {
                            assert(devices0[i]@.wf());
                        }
                    }
                    assert(through((s, w)));
                }
                match w {
                    Err(e) => {
                        return Err(Error::Device(e));
                    },
                    Ok(_) => 0,
                }
            } else {
                assert(self.devices@[slot as int]@.wf());
                self.devices[slot].read(offset, a.width)
            },
        };
        let ghost s = self.turn(uart@, io.calls());
        let answer: Result<(), PlatformError> = match &mut self.vm {
            Some(vm) => vm.complete_io(a.completion, value),
            None => Ok(()),
        };
        assert(through(answer));
        let ghost s1 = self.turn(uart@, io.calls());
        let r: Result<(), Error> = match answer {
            Ok(_) => Ok(()),
            Err(e) => Err(Error::Platform(e)),
        };
        assert(answered(s, token, value, s1, r));
        r
    }
}

/// A rollback failed: what is mapped is not known any more.
pub open spec fn lost<T>(r: Result<T, Error>) -> bool {
    r matches Err(Error::Device(e)) && adrift(Err::<(), DeviceError>(e))
}

/// What the devices see besides dynamic memory.
pub open spec fn base_part(dynamic: Option<MemView>, memory: Memory) -> Set<Piece> {
    match dynamic {
        Some(d) => outside(d, memory),
        None => seen(memory),
    }
}

/// The range of dynamic memory is the same.
pub open spec fn same_range(a: Option<MemView>, b: Option<MemView>) -> bool {
    match (a, b) {
        (None, None) => true,
        (Some(a), Some(b)) => a.start == b.start && a.capacity == b.capacity,
        _ => false,
    }
}

/// Whatever is asked of the VM besides mappings, memory stays in step.
proof fn lemma_kept_in_step<VM: VirtualMachine, BS: BlockStorage, ND: NetDevice>(
    s: Runtime<VM, BS, ND>,
)
    ensures
        s.consistent() ==> forall|call: VmCall, m: Memory|
            m.same(memory_of(s.view)) && !(call is Mapped) && !(call is Unmapped)
                ==> #[trigger] in_step(calls_of(s.vm).push(call), m),
        s.consistent() ==> forall|m: Memory|
            m.same(memory_of(s.view)) ==> #[trigger] in_step(calls_of(s.vm), m),
        forall|d: Option<MemView>, m: Memory|
            m.same(memory_of(s.view)) && same_range(s.dynamic(), d) ==> #[trigger] base_part(d, m)
                == base_part(s.dynamic(), memory_of(s.view)),
{
    let c = calls_of(s.vm);
    let m0 = memory_of(s.view);
    if s.consistent() {
        assert forall|call: VmCall, m: Memory|
            m.same(m0) && !(call is Mapped) && !(call is Unmapped) implies #[trigger] in_step(
            c.push(call),
            m,
        ) by {
            lemma_stays_in_step(c, m0, call, m);
        }
        assert forall|m: Memory| m.same(m0) implies #[trigger] in_step(c, m) by {
            lemma_stays_in_step(c, m0, VmCall::Stopped, m);
        }
    }
    assert forall|d: Option<MemView>, m: Memory|
        m.same(m0) && same_range(s.dynamic(), d) implies #[trigger] base_part(d, m) == base_part(
        s.dynamic(),
        m0,
    ) by {
        let e = match s.dynamic() {
            Some(e) => e,
            None => arbitrary(),
        };
        let f = match d {
            Some(f) => f,
            None => e,
        };
        lemma_outside_same(e, m0, f, m);
    }
}

/// Whatever the driver writes, a device stays the device it is.
proof fn lemma_write_keeps_kind<BS: BlockStorage, ND: NetDevice>(
    d0: MmioView<Device<BS, ND>>,
    offset: u64,
    value: u32,
    m0: Memory,
    d1: MmioView<Device<BS, ND>>,
    m1: Memory,
    r: Result<(), DeviceError>,
)
    requires
        write_rel(d0, offset, value, m0, d1, m1, r),
    ensures
        d0.device is Mem <==> d1.device is Mem,
        d0.device is Block <==> d1.device is Block,
        d0.device matches Device::Mem(a) ==> (d1.device matches Device::Mem(b) && (b@ == a@ || b@
            == (MemView { ready: false, ..a@ }))),
{
}

/// A turn of one device.
pub open spec fn poll_one<BS: BlockStorage, ND: NetDevice>(
    d0: MmioView<Device<BS, ND>>,
    m0: Memory,
    d1: MmioView<Device<BS, ND>>,
    m1: Memory,
    r: Result<(), DeviceError>,
) -> bool {
    if running(d0.status) {
        &&& Device::<BS, ND>::poll_rel(
            d0.device,
            d0.queues,
            m0,
            d1.device,
            d1.queues,
            m1,
            r,
        )
        &&& d1 == (MmioView { device: d1.device, queues: d1.queues, ..d0 })
    } else {
        d1 == d0 && m1 == m0 && r == Ok::<(), DeviceError>(())
    }
}

/// A turn of the first `n` devices, in order, up to the first failure.
pub open spec fn polls_rel<BS: BlockStorage, ND: NetDevice>(
    n: nat,
    d0: Seq<MmioView<Device<BS, ND>>>,
    m0: Memory,
    d1: Seq<MmioView<Device<BS, ND>>>,
    m1: Memory,
    r: Result<(), DeviceError>,
) -> bool
    decreases n,
{
    if n == 0 {
        d1 == d0 && m1 == m0 && r == Ok::<(), DeviceError>(())
    } else {
        exists|d: Seq<MmioView<Device<BS, ND>>>, m: Memory, e: Result<(), DeviceError>|
            {
                &&& #[trigger] through((d, m, e))
                &&& polls_rel((n - 1) as nat, d0, m0, d, m, e)
                &&& if e is Err {
                    d1 == d && m1 == m && r == e
                } else {
                    &&& poll_one(d[n - 1], m, d1[n - 1], m1, r)
                    &&& d1 == d.update(n - 1, d1[n - 1])
                }
            }
    }
}

proof fn lemma_polls_error<BS: BlockStorage, ND: NetDevice>(
    k: nat,
    n: nat,
    d0: Seq<MmioView<Device<BS, ND>>>,
    m0: Memory,
    d1: Seq<MmioView<Device<BS, ND>>>,
    m1: Memory,
    r: Result<(), DeviceError>,
)
    requires
        k <= n,
        r is Err,
        polls_rel(k, d0, m0, d1, m1, r),
    ensures
        polls_rel(n, d0, m0, d1, m1, r),
    decreases n - k,
{
    if k < n {
        assert(through((d1, m1, r)));
        assert(polls_rel(k + 1, d0, m0, d1, m1, r));
        lemma_polls_error(k + 1, n, d0, m0, d1, m1, r);
    }
}

/// A device failure as a failure of the VM.
pub open spec fn from_device<T>(r: Result<T, DeviceError>) -> Result<T, Error> {
    match r {
        Ok(v) => Ok(v),
        Err(e) => Err(Error::Device(e)),
    }
}

/// The first half of a turn: input, the UART's interrupt line, the devices.
/// `true` means that the host side wants a stop.
pub open spec fn devices_rel<BS: BlockStorage, ND: NetDevice>(
    irq: u32,
    s0: Turn<BS, ND>,
    s1: Turn<BS, ND>,
    r: Result<bool, Error>,
) -> bool {
    exists|s: Turn<BS, ND>, w: Result<bool, SerialError>|
        {
            &&& #[trigger] through((s, w))
            &&& poll_rel(s0.uart, s0.serial, s.uart, s.serial, w)
            &&& s == (Turn { uart: s.uart, serial: s.serial, ..s0 })
            &&& match w {
                Err(e) => s1 == s && r == Err::<bool, Error>(Error::Serial(e)),
                Ok(true) => s1 == s && r == Ok::<bool, Error>(true),
                Ok(false) => exists|a: Result<(), PlatformError>, p: Result<(), DeviceError>|
                    #[trigger] through((a, p)) && {
                        let t = Turn {
                            calls: s.calls.push(
                                VmCall::Irq { irq, level: s.uart.pending(), result: a },
                            ),
                            ..s
                        };
                        match a {
                            Err(e) => s1 == t && r == Err::<bool, Error>(Error::Platform(e)),
                            Ok(_) => {
                                &&& polls_rel(
                                    t.devices.len(),
                                    t.devices,
                                    t.memory,
                                    s1.devices,
                                    s1.memory,
                                    p,
                                )
                                &&& s1 == (Turn { devices: s1.devices, memory: s1.memory, ..t })
                                &&& r == match p {
                                    Ok(_) => Ok::<bool, Error>(false),
                                    Err(e) => Err(Error::Device(e)),
                                }
                            },
                        }
                    },
            }
        }
}

/// Driving the interrupt line of each of the first `n` devices, up to the first
/// failure.
pub open spec fn irqs_rel<BS: BlockStorage, ND: NetDevice>(
    n: nat,
    regions: Seq<IoRegion>,
    devices: Seq<MmioView<Device<BS, ND>>>,
    c0: Seq<VmCall>,
    c1: Seq<VmCall>,
    r: Result<(), PlatformError>,
) -> bool
    decreases n,
{
    if n == 0 {
        c1 == c0 && r == Ok::<(), PlatformError>(())
    } else {
        exists|c: Seq<VmCall>, e: Result<(), PlatformError>|
            {
                &&& #[trigger] through((c, e))
                &&& irqs_rel((n - 1) as nat, regions, devices, c0, c, e)
                &&& if e is Err {
                    c1 == c && r == e
                } else {
                    c1 == c.push(
                        VmCall::Irq {
                            irq: regions[n - 1].irq,
                            level: devices[n - 1].queues.interrupt != 0,
                            result: r,
                        },
                    )
                }
            }
    }
}

/// What driving the lines adds ends in a call about a line.
proof fn lemma_irqs_last<BS: BlockStorage, ND: NetDevice>(
    n: nat,
    regions: Seq<IoRegion>,
    devices: Seq<MmioView<Device<BS, ND>>>,
    c0: Seq<VmCall>,
    c1: Seq<VmCall>,
    r: Result<(), PlatformError>,
)
    requires
        irqs_rel(n, regions, devices, c0, c1, r),
    ensures
        c1 == c0 || c1.len() > c0.len() && c1.last() is Irq,
    decreases n,
{
    if n > 0 {
        let (c, e) = choose|c: Seq<VmCall>, e: Result<(), PlatformError>|
            {
                &&& #[trigger] through((c, e))
                &&& irqs_rel((n - 1) as nat, regions, devices, c0, c, e)
                &&& if e is Err {
                    c1 == c && r == e
                } else {
                    c1 == c.push(
                        VmCall::Irq {
                            irq: regions[n - 1].irq,
                            level: devices[n - 1].queues.interrupt != 0,
                            result: r,
                        },
                    )
                }
            };
        lemma_irqs_last((n - 1) as nat, regions, devices, c0, c, e);
    }
}

proof fn lemma_irqs_error<BS: BlockStorage, ND: NetDevice>(
    k: nat,
    n: nat,
    regions: Seq<IoRegion>,
    devices: Seq<MmioView<Device<BS, ND>>>,
    c0: Seq<VmCall>,
    c1: Seq<VmCall>,
    r: Result<(), PlatformError>,
)
    requires
        k <= n,
        r is Err,
        irqs_rel(k, regions, devices, c0, c1, r),
    ensures
        irqs_rel(n, regions, devices, c0, c1, r),
    decreases n - k,
{
    if k < n {
        assert(through((c1, r)));
        assert(irqs_rel(k + 1, regions, devices, c0, c1, r));
        lemma_irqs_error(k + 1, n, regions, devices, c0, c1, r);
    }
}

/// Carrying `operation` out on a VM that is paused, or runs: the platform is asked
/// where that changes something.
pub open spec fn carried_rel(
    operation: Operation,
    paused: bool,
    c0: Seq<VmCall>,
    c1: Seq<VmCall>,
    a: Result<(), PlatformError>,
) -> bool {
    match operation {
        Operation::Pause => if paused {
            a is Ok && c1 == c0
        } else {
            c1 == c0.push(VmCall::Paused { result: a })
        },
        Operation::Resume => if !paused {
            a is Ok && c1 == c0
        } else {
            c1 == c0.push(VmCall::Resumed { result: a })
        },
    }
}

impl<VM: VirtualMachine, BS: BlockStorage, ND: NetDevice> Runtime<VM, BS, ND> {
    /// Polls input and the devices. `true` means that the host side of the UART
    /// wants a stop.
    pub fn poll_devices<SI: SerialIo>(&mut self, uart: &mut Uart, io: &mut SI) -> (r: Result<
        bool,
        Error,
    >)
        requires
            old(self).wf(),
            old(self).stage == Stage::Ready,
            old(uart)@.wf(),
        ensures
            final(self).wf(),
            final(self).kept(*old(self)),
            final(uart)@.wf(),
            memory_of(final(self).view).same(memory_of(old(self).view)),
            same_memory_device(old(self).devices@, final(self).devices@),
            devices_rel(
                old(self).layout.uart.irq,
                old(self).turn(old(uart)@, old(io).calls()),
                final(self).turn(final(uart)@, final(io).calls()),
                r,
            ),
            old(self).consistent() && !lost(r) ==> final(self).consistent(),
    {
        proof {
            lemma_kept_in_step(*self);
        }
        let ghost s0 = self.turn(uart@, io.calls());
        let w: Result<bool, SerialError> = poll_input(uart, io);
        let ghost s = self.turn(uart@, io.calls());
        assert(through((s, w)));
        match w {
            Err(e) => {
                return Err(Error::Serial(e));
            },
            Ok(stop) => {
                if stop {
                    return Ok(true);
                }
            },
        }
        let a: Result<(), PlatformError> = match &mut self.vm {
            Some(vm) => vm.set_irq(self.layout.uart.irq, uart.interrupt_pending()),
            None => Ok(()),
        };
        let ghost t = self.turn(uart@, io.calls());
        let ghost answer = a;
        match a {
            Err(e) => {
                assert(through((answer, Ok::<(), DeviceError>(()))));
                return Err(Error::Platform(e));
            },
            Ok(_) => {},
        }
        let p: Result<(), DeviceError> = self.poll_all();
        assert(through((answer, p)));
        match p {
            Err(e) => Err(Error::Device(e)),
            Ok(_) => Ok(false),
        }
    }

    fn poll_all(&mut self) -> (r: Result<(), DeviceError>)
        requires
            old(self).wf(),
            old(self).stage == Stage::Ready,
        ensures
            final(self).wf(),
            final(self).kept(*old(self)),
            final(self).vm == old(self).vm,
            memory_of(final(self).view).same(memory_of(old(self).view)),
            same_memory_device(old(self).devices@, final(self).devices@),
            polls_rel(
                old(self).devices@.len(),
                views(old(self).devices@),
                memory_of(old(self).view),
                views(final(self).devices@),
                memory_of(final(self).view),
                r,
            ),
    {
        let ghost devices0 = self.devices@;
        let ghost d0 = views(self.devices@);
        let ghost m0 = memory_of(self.view);
        let mut i: usize = 0;
        while i < self.devices.len()
            invariant
                i <= self.devices@.len(),
                devices0 == old(self).devices@,
                d0 == views(devices0),
                m0 == memory_of(old(self).view),
                self.wf(),
                self.kept(*old(self)),
                self.stage == Stage::Ready,
                self.vm == old(self).vm,
                memory_of(self.view).same(m0),
                same_memory_device(devices0, self.devices@),
                polls_rel(
                    i as nat,
                    d0,
                    m0,
                    views(self.devices@),
                    memory_of(self.view),
                    Ok::<(), DeviceError>(()),
                ),
            decreases self.devices@.len() - i,
        {
            let ghost before = self.devices@;
            let ghost d = views(self.devices@);
            let ghost m = memory_of(self.view);
            assert(before[i as int]@.wf());
            let w: Result<(), DeviceError> = match &mut self.view {
                Some(view) => self.devices[i].poll(view),
                None => Ok(()),
            };
            proof {
                let d1 = views(self.devices@);
                assert(d1 =~= d.update(i as int, self.devices@[i as int]@));
                assert(poll_one(d[i as int], m, d1[i as int], memory_of(self.view), w));
                assert(through((d, m, Ok::<(), DeviceError>(()))));
                assert(polls_rel((i + 1) as nat, d0, m0, d1, memory_of(self.view), w));
                assert forall|k: int| 0 <= k < self.devices@.len() implies (
                #[trigger] self.devices@[k])@.wf() && (self.devices@[k].device is Mem
                    <==> self.has_memory && k == self.devices@.len() - 1) by {
                    assert(before[k]@.wf());
                }
                if w is Err {
                    lemma_polls_error(
                        (i + 1) as nat,
                        devices0.len(),
                        d0,
                        m0,
                        d1,
                        memory_of(self.view),
                        w,
                    );
                }
            }
            match w {
                Err(e) => {
                    return Err(e);
                },
                Ok(_) => {},
            }
            i = i + 1;
        }
        Ok(())
    }

    /// Drives the interrupt line of every device.
    pub fn raise_irqs(&mut self) -> (r: Result<(), Error>)
        requires
            old(self).wf(),
            old(self).stage == Stage::Ready,
        ensures
            final(self).wf(),
            final(self).kept(*old(self)),
            final(self).devices == old(self).devices,
            final(self).view == old(self).view,
            exists|a: Result<(), PlatformError>|
                #[trigger] through(a) && r == lifted(a) && irqs_rel(
                    old(self).devices@.len(),
                    old(self).layout.virtio@,
                    views(old(self).devices@),
                    calls_of(old(self).vm),
                    calls_of(final(self).vm),
                    a,
                ),
            old(self).consistent() ==> final(self).consistent(),
    {
        let ghost c0 = calls_of(self.vm);
        let mut i: usize = 0;
        while i < self.devices.len()
            invariant
                i <= self.devices@.len(),
                c0 == calls_of(old(self).vm),
                self.wf(),
                self.kept(*old(self)),
                self.stage == Stage::Ready,
                self.devices == old(self).devices,
                self.view == old(self).view,
                old(self).consistent() ==> self.consistent(),
                irqs_rel(
                    i as nat,
                    self.layout.virtio@,
                    views(self.devices@),
                    c0,
                    calls_of(self.vm),
                    Ok::<(), PlatformError>(()),
                ),
            decreases self.devices@.len() - i,
        {
            let ghost c = calls_of(self.vm);
            proof {
                lemma_kept_in_step(*self);
            }
            let irq: u32 = self.layout.virtio[i].irq;
            let level: bool = self.devices[i].interrupt_pending();
            let a: Result<(), PlatformError> = match &mut self.vm {
                Some(vm) => vm.set_irq(irq, level),
                None => Ok(()),
            };
            proof {
                assert(through((c, Ok::<(), PlatformError>(()))));
                assert(irqs_rel(
                    (i + 1) as nat,
                    self.layout.virtio@,
                    views(self.devices@),
                    c0,
                    calls_of(self.vm),
                    a,
                ));
                if a is Err {
                    lemma_irqs_error(
                        (i + 1) as nat,
                        self.devices@.len(),
                        self.layout.virtio@,
                        views(self.devices@),
                        c0,
                        calls_of(self.vm),
                        a,
                    );
                }
                assert(through(a));
                if a is Ok {
                    assert(a->Ok_0 == ());
                }
            }
            match a {
                Err(e) => {
                    return Err(Error::Platform(e));
                },
                Ok(_) => {},
            }
            i = i + 1;
        }
        assert(through(Ok::<(), PlatformError>(())));
        Ok(())
    }

    /// Waits for an event of the guest.
    pub fn poll_event(&mut self, timeout_ms: u64) -> (r: Result<
        Option<Event<VM::Completion>>,
        PlatformError,
    >)
        requires
            old(self).wf(),
            old(self).stage == Stage::Ready,
        ensures
            final(self).wf(),
            final(self).kept(*old(self)),
            final(self).devices == old(self).devices,
            final(self).view == old(self).view,
            calls_of(final(self).vm) == calls_of(old(self).vm).push(
                VmCall::Polled {
                    timeout_ms,
                    result: observed(r, |c: VM::Completion| VM::token(c)),
                },
            ),
            old(self).consistent() ==> final(self).consistent(),
    {
        proof {
            lemma_kept_in_step(*self);
        }
        match &mut self.vm {
            Some(vm) => vm.poll_event(timeout_ms),
            None => Ok(None),
        }
    }

    /// Pauses or resumes the VM, unless that is done already.
    pub fn serve(&mut self, operation: Operation, paused: bool) -> (r: Result<(), Error>)
        requires
            old(self).wf(),
            old(self).stage == Stage::Ready,
        ensures
            final(self).wf(),
            final(self).kept(*old(self)),
            final(self).devices == old(self).devices,
            final(self).view == old(self).view,
            exists|a: Result<(), PlatformError>|
                #[trigger] through(a) && r == lifted(a) && carried_rel(
                    operation,
                    paused,
                    calls_of(old(self).vm),
                    calls_of(final(self).vm),
                    a,
                ),
            old(self).consistent() ==> final(self).consistent(),
    {
        proof {
            lemma_kept_in_step(*self);
        }
        let a: Result<(), PlatformError> = match (operation, &mut self.vm) {
            (Operation::Pause, Some(vm)) => if paused {
                Ok(())
            } else {
                vm.pause()
            },
            (Operation::Resume, Some(vm)) => if paused {
                vm.resume()
            } else {
                Ok(())
            },
            _ => Ok(()),
        };
        assert(through(a));
        match a {
            Ok(_) => Ok(()),
            Err(e) => Err(Error::Platform(e)),
        }
    }
}

/// Dynamic memory, if it is there, is the same device.
pub open spec fn same_memory_device<BS: BlockStorage, ND: NetDevice>(
    d0: Seq<Mmio<Device<BS, ND>>>,
    d1: Seq<Mmio<Device<BS, ND>>>,
) -> bool {
    &&& d0.len() == d1.len()
    &&& forall|i: int|
        0 <= i < d0.len() && d0[i].device is Mem ==> (#[trigger] d1[i]).device == d0[i].device
}

/// What serving dynamic memory may change.
pub struct Tending<BS: BlockStorage, ND: NetDevice> {
    pub devices: Seq<MmioView<Device<BS, ND>>>,
    pub status: MemoryStatus,
    pub memory: Memory,
    pub calls: Seq<VmCall>,
}

/// Dynamic memory and its control state agree, and in its range exactly its
/// plugged blocks are in the view of guest memory, as the allocations that it
/// holds.
pub open spec fn memory_ok<BS: BlockStorage, ND: NetDevice>(
    devices: Seq<Mmio<Device<BS, ND>>>,
    status: MemoryStatus,
    memory: Memory,
) -> bool {
    devices.last().device matches Device::Mem(d) && d@.agrees(status) && d@.mirrored(memory)
}

/// Dynamic memory holds nothing yet and agrees with its control state, and its
/// range is free in memory of these regions.
pub open spec fn memory_free<BS: BlockStorage, ND: NetDevice>(
    devices: Seq<Mmio<Device<BS, ND>>>,
    status: MemoryStatus,
    regions: Seq<(u64, u64)>,
) -> bool {
    devices.last().device matches Device::Mem(d) && d@.agrees(status) && d@.exact(regions)
        && d@.blocks == Set::<u64>::empty()
}

/// Taking over the target: the driver is told where it changed. Tells whether
/// the driver asked for something.
pub open spec fn sync_rel<BS: BlockStorage, ND: NetDevice>(
    s0: Tending<BS, ND>,
    s1: Tending<BS, ND>,
    r: Result<bool, Error>,
) -> bool {
    let last = s0.devices.len() - 1;
    let d0 = s0.devices[last];
    let d1 = s1.devices[last];
    let active = running(d0.status);
    let requested = (s0.status.requested_size_mib * MIB) as u64;
    &&& s1.devices == s0.devices.update(last, d1)
    &&& s1.calls == s0.calls
    &&& s1.status == (MemoryStatus { driver_ready: active, ..s0.status })
    &&& d0.device matches Device::Mem(a) && d1.device matches Device::Mem(b) && if requested
        != a@.requested {
        &&& b@ == (MemView {
            ready: active,
            requested,
            generation: a@.generation.wrapping_add(1),
            ..a@
        })
        &&& d1 == (MmioView {
            device: d1.device,
            queues: QueuesView { interrupt: d0.queues.interrupt | 2, ..d0.queues },
            ..d0
        })
    } else {
        b@ == (MemView { ready: active, ..a@ }) && d1 == (MmioView { device: d1.device, ..d0 })
    }
    &&& if active {
        exists|n: Result<u16, DeviceError>|
            #[trigger] available_rel(d1.queues.rings[0], s0.memory, s1.memory, n) && r == match n {
                Ok(count) => Ok::<bool, Error>(count != 0),
                Err(e) => Err(Error::Device(e)),
            }
    } else {
        s1.memory == s0.memory && r == Ok::<bool, Error>(false)
    }
}

/// The pins `p` followed by those of `q`.
pub open spec fn joined(p: Seq<(u64, u64)>, q: Result<Seq<(u64, u64)>, DeviceError>) -> Result<
    Seq<(u64, u64)>,
    DeviceError,
> {
    match q {
        Ok(q) => Ok(p + q),
        Err(e) => Err(e),
    }
}

/// Pins as plain values.
pub open spec fn plain(r: Result<Pins, Error>) -> Result<Seq<(u64, u64)>, Error> {
    match r {
        Ok(p) => Ok(p@),
        Err(e) => Err(e),
    }
}

/// Pinning the memory that the queues of the first `n` devices refer to.
pub open spec fn all_pins_rel<BS: BlockStorage, ND: NetDevice>(
    n: nat,
    devices: Seq<MmioView<Device<BS, ND>>>,
    m0: Memory,
    m1: Memory,
    r: Result<Seq<(u64, u64)>, DeviceError>,
) -> bool
    decreases n,
{
    if n == 0 {
        m1 == m0 && r == Ok::<Seq<(u64, u64)>, DeviceError>(Seq::empty())
    } else {
        exists|m: Memory, e: Result<Seq<(u64, u64)>, DeviceError>|
            {
                &&& #[trigger] through((m, e))
                &&& all_pins_rel((n - 1) as nat, devices, m0, m, e)
                &&& match e {
                    Err(_) => m1 == m && r == e,
                    Ok(p) => exists|q: Result<Seq<(u64, u64)>, DeviceError>|
                        #[trigger] pinned_rel(
                            devices[n - 1].queues.rings,
                            devices[n - 1].queues.rings.len(),
                            m,
                            m1,
                            q,
                        ) && r == joined(p, q),
                }
            }
    }
}

proof fn lemma_all_pins_error<BS: BlockStorage, ND: NetDevice>(
    k: nat,
    n: nat,
    devices: Seq<MmioView<Device<BS, ND>>>,
    m0: Memory,
    m1: Memory,
    r: Result<Seq<(u64, u64)>, DeviceError>,
)
    requires
        k <= n,
        r is Err,
        all_pins_rel(k, devices, m0, m1, r),
    ensures
        all_pins_rel(n, devices, m0, m1, r),
    decreases n - k,
{
    if k < n {
        assert(through((m1, r)));
        assert(all_pins_rel(k + 1, devices, m0, m1, r));
        lemma_all_pins_error(k + 1, n, devices, m0, m1, r);
    }
}

/// Pausing the VM, and pinning what every queue refers to.
pub open spec fn quiesce_rel<BS: BlockStorage, ND: NetDevice>(
    s0: Tending<BS, ND>,
    s1: Tending<BS, ND>,
    r: Result<Seq<(u64, u64)>, Error>,
) -> bool {
    exists|a: Result<(), PlatformError>, p: Result<Seq<(u64, u64)>, DeviceError>|
        {
            &&& #[trigger] through((a, p))
            &&& s1 == (Tending {
                memory: s1.memory,
                calls: s0.calls.push(VmCall::Paused { result: a }),
                ..s0
            })
            &&& match a {
                Err(e) => s1.memory == s0.memory && r == Err::<Seq<(u64, u64)>, Error>(
                    Error::Platform(e),
                ),
                Ok(_) => all_pins_rel(s0.devices.len(), s0.devices, s0.memory, s1.memory, p) && r
                    == from_device(p),
            }
        }
}

/// Serving the requests of dynamic memory while the VM is paused.
pub open spec fn plug_rel<BS: BlockStorage, ND: NetDevice>(
    pinned: Seq<(u64, u64)>,
    s0: Tending<BS, ND>,
    s1: Tending<BS, ND>,
    r: Result<(), Error>,
) -> bool {
    let last = s0.devices.len() - 1;
    let d0 = s0.devices[last];
    let d1 = s1.devices[last];
    &&& s1.devices == s0.devices.update(last, d1)
    &&& d1 == (MmioView { device: d1.device, queues: d1.queues, ..d0 })
    &&& d0.device matches Device::Mem(a) && d1.device matches Device::Mem(b) && exists|
        p: Result<(), DeviceError>,
    |
        #[trigger] process_rel(
            snapshot(a@, s0.status, s0.calls, s0.memory),
            d0.queues,
            pinned,
            snapshot(b@, s1.status, s1.calls, s1.memory),
            d1.queues,
            p,
        ) && r == from_device(p)
}

/// Serving dynamic memory: the VM is paused exactly where the driver asked for
/// something, and resumed once that was served.
pub open spec fn tend_rel<BS: BlockStorage, ND: NetDevice>(
    s0: Tending<BS, ND>,
    s1: Tending<BS, ND>,
    r: Result<(), Error>,
) -> bool {
    exists|s: Tending<BS, ND>, e: Result<bool, Error>|
        #[trigger] sync_rel(s0, s, e) && match e {
            Err(e) => s1 == s && r == Err::<(), Error>(e),
            Ok(false) => s1 == s && r == Ok::<(), Error>(()),
            Ok(true) => exists|t: Tending<BS, ND>, p: Result<Seq<(u64, u64)>, Error>|
                #[trigger] quiesce_rel(s, t, p) && match p {
                    Err(e) => s1 == t && r == Err::<(), Error>(e),
                    Ok(pinned) => exists|u: Tending<BS, ND>, w: Result<(), Error>|
                        #[trigger] plug_rel(pinned, t, u, w) && match w {
                            Err(_) => s1 == u && r == w,
                            Ok(_) => exists|a: Result<(), PlatformError>|
                                #[trigger] through(a) && s1 == (Tending {
                                    calls: u.calls.push(VmCall::Resumed { result: a }),
                                    ..u
                                }) && r == lifted(a),
                        },
                },
        }
}

impl<VM: VirtualMachine, BS: BlockStorage, ND: NetDevice> Runtime<VM, BS, ND> {
    /// What serving dynamic memory may change.
    pub open spec fn tending(self, status: MemoryStatus) -> Tending<BS, ND> {
        Tending {
            devices: views(self.devices@),
            status,
            memory: memory_of(self.view),
            calls: calls_of(self.vm),
        }
    }

    /// Takes over the target and whether the driver is up. Tells whether the
    /// driver asked for something.
    pub fn sync_memory(&mut self, control: &mut MemoryControl) -> (r: Result<bool, Error>)
        requires
            old(self).wf(),
            old(self).stage == Stage::Ready,
            old(self).has_memory,
            memory_ok(old(self).devices@, old(control)@, memory_of(old(self).view)),
        ensures
            final(self).wf(),
            final(self).kept(*old(self)),
            memory_ok(final(self).devices@, final(control)@, memory_of(final(self).view)),
            sync_rel(old(self).tending(old(control)@), final(self).tending(final(control)@), r),
            memory_of(final(self).view).same(memory_of(old(self).view)),
            old(self).consistent() ==> final(self).consistent(),
    {
        proof {
            lemma_kept_in_step(*self);
        }
        let ghost devices0 = self.devices@;
        let ghost s0 = self.tending(control@);
        let last: usize = self.devices.len() - 1;
        assert(devices0[last as int]@.wf());
        let active: bool = self.devices[last].active();
        let changed: bool = match &mut self.devices[last].device {
            Device::Mem(d) => d.sync_target(active, control),
            _ => false,
        };
        if changed {
            self.devices[last].config_changed();
        }
        let ghost devices1 = self.devices@;
        proof {
            assert(views(devices1) =~= views(devices0).update(
                last as int,
                devices1[last as int]@,
            ));
            assert forall|k: int| 0 <= k < devices1.len() implies (#[trigger] devices1[k])@.wf()
                && (devices1[k].device is Mem <==> self.has_memory && k == devices1.len() - 1) by {
                assert(devices0[k]@.wf());
            }
        }
        if !active {
            return Ok(false);
        }
        let n: Result<u16, DeviceError> = match &mut self.view {
            Some(view) => self.devices[last].queues.available(0, view),
            None => Ok(0),
        };
        let ghost s1 = self.tending(control@);
        assert(available_rel(s1.devices[last as int].queues.rings[0], s0.memory, s1.memory, n));
        match n {
            Ok(count) => Ok(count != 0),
            Err(e) => Err(Error::Device(e)),
        }
    }

    /// Pauses the VM, and pins the memory that the queues refer to.
    pub fn quiesce(&mut self) -> (r: Result<Pins, Error>)
        requires
            old(self).wf(),
            old(self).stage == Stage::Ready,
        ensures
            final(self).wf(),
            final(self).kept(*old(self)),
            final(self).devices == old(self).devices,
            memory_of(final(self).view).same(memory_of(old(self).view)),
            forall|status: MemoryStatus|
                quiesce_rel(
                    #[trigger] old(self).tending(status),
                    final(self).tending(status),
                    plain(r),
                ),
            old(self).consistent() ==> final(self).consistent(),
    {
        proof {
            lemma_kept_in_step(*self);
        }
        let ghost c0 = calls_of(self.vm);
        let ghost m0 = memory_of(self.view);
        let ghost devices = views(self.devices@);
        let a: Result<(), PlatformError> = match &mut self.vm {
            Some(vm) => vm.pause(),
            None => Ok(()),
        };
        let ghost answer = a;
        match a {
            Err(e) => {
                assert(through((answer, Ok::<Seq<(u64, u64)>, DeviceError>(Seq::empty()))));
                return Err(Error::Platform(e));
            },
            Ok(_) => {},
        }
        let mut pins: Pins = Vec::new();
        let mut i: usize = 0;
        assert(pins@ =~= Seq::empty());
        while i < self.devices.len()
            invariant
                i <= self.devices@.len(),
                self.wf(),
                self.kept(*old(self)),
                self.stage == Stage::Ready,
                self.devices == old(self).devices,
                devices == views(self.devices@),
                m0 == memory_of(old(self).view),
                memory_of(self.view).same(m0),
                c0 == calls_of(old(self).vm),
                calls_of(self.vm) == c0.push(VmCall::Paused { result: answer }),
                answer is Ok,
                old(self).consistent() ==> forall|m: Memory|
                    m.same(m0) ==> #[trigger] in_step(calls_of(self.vm), m),
                all_pins_rel(
                    i as nat,
                    devices,
                    m0,
                    memory_of(self.view),
                    Ok::<Seq<(u64, u64)>, DeviceError>(pins@),
                ),
            decreases self.devices@.len() - i,
        {
            let ghost m = memory_of(self.view);
            let ghost p = pins@;
            assert(self.devices@[i as int]@.wf());
            let q: Result<Pins, DeviceError> = match &mut self.view {
                Some(view) => self.devices[i].queues.pinned(view),
                None => Ok(Vec::new()),
            };
            proof {
                assert(through((m, Ok::<Seq<(u64, u64)>, DeviceError>(p))));
                assert(pinned_rel(
                    devices[i as int].queues.rings,
                    devices[i as int].queues.rings.len(),
                    m,
                    memory_of(self.view),
                    pins_view(q),
                ));
                let e = joined(p, pins_view(q));
                assert(all_pins_rel((i + 1) as nat, devices, m0, memory_of(self.view), e));
                if q is Err {
                    lemma_all_pins_error(
                        (i + 1) as nat,
                        devices.len(),
                        devices,
                        m0,
                        memory_of(self.view),
                        e,
                    );
                    assert(through((answer, e)));
                }
            }
            match q {
                Err(e) => {
                    return Err(Error::Device(e));
                },
                Ok(q) => {
                    let mut more: Pins = q;
                    pins.append(&mut more);
                },
            }
            i = i + 1;
        }
        assert(through((answer, Ok::<Seq<(u64, u64)>, DeviceError>(pins@))));
        Ok(pins)
    }

    /// Serves what the driver of dynamic memory asked for. The VM is paused,
    /// and `pinned` is what the queues refer to.
    pub fn plug_memory(&mut self, pinned: &Pins, control: &mut MemoryControl) -> (r: Result<
        (),
        Error,
    >)
        requires
            old(self).wf(),
            old(self).stage == Stage::Ready,
            old(self).has_memory,
            memory_ok(old(self).devices@, old(control)@, memory_of(old(self).view)),
        ensures
            final(self).wf(),
            final(self).kept(*old(self)),
            memory_ok(final(self).devices@, final(control)@, memory_of(final(self).view)),
            plug_rel(
                pinned@,
                old(self).tending(old(control)@),
                final(self).tending(final(control)@),
                r,
            ),
            old(self).consistent() && !lost(r) ==> final(self).consistent(),
    {
        let ghost devices0 = self.devices@;
        let ghost s0 = self.tending(control@);
        let last: usize = self.devices.len() - 1;
        assert(devices0[last as int]@.wf());
        let mut device: Mmio<Device<BS, ND>> = self.devices.remove(last);
        let p: Result<(), DeviceError> = match (&mut device.device, &mut self.vm, &mut self.view) {
            (Device::Mem(d), Some(vm), Some(view)) => d.process(
                &mut device.queues,
                control,
                vm,
                view,
                pinned,
            ),
            _ => Ok(()),
        };
        self.devices.push(device);
        let ghost devices1 = self.devices@;
        let ghost s1 = self.tending(control@);
        proof {
            assert(views(devices1) =~= views(devices0).update(
                last as int,
                devices1[last as int]@,
            ));
            assert forall|k: int| 0 <= k < devices1.len() implies (#[trigger] devices1[k])@.wf()
                && (devices1[k].device is Mem <==> self.has_memory && k == devices1.len() - 1) by {
                assert(devices0[k]@.wf());
                if k < last {
                    assert(devices1[k] == devices0[k]);
                }
            }
            assert(process_rel(
                snapshot(
                    (s0.devices[last as int].device->Mem_0)@,
                    s0.status,
                    s0.calls,
                    s0.memory,
                ),
                s0.devices[last as int].queues,
                pinned@,
                snapshot(
                    (s1.devices[last as int].device->Mem_0)@,
                    s1.status,
                    s1.calls,
                    s1.memory,
                ),
                s1.devices[last as int].queues,
                p,
            ));
        }
        match p {
            Ok(_) => Ok(()),
            Err(e) => Err(Error::Device(e)),
        }
    }

    /// Resumes the VM after dynamic memory was served.
    pub fn release(&mut self) -> (r: Result<(), Error>)
        requires
            old(self).wf(),
            old(self).stage == Stage::Ready,
        ensures
            final(self).wf(),
            final(self).kept(*old(self)),
            final(self).devices == old(self).devices,
            final(self).view == old(self).view,
            exists|a: Result<(), PlatformError>|
                #[trigger] through(a) && r == lifted(a) && calls_of(final(self).vm) == calls_of(
                    old(self).vm,
                ).push(VmCall::Resumed { result: a }),
            old(self).consistent() ==> final(self).consistent(),
    {
        proof {
            lemma_kept_in_step(*self);
        }
        let a: Result<(), PlatformError> = match &mut self.vm {
            Some(vm) => vm.resume(),
            None => Ok(()),
        };
        assert(through(a));
        match a {
            Ok(_) => Ok(()),
            Err(e) => Err(Error::Platform(e)),
        }
    }

    /// Serves dynamic memory.
    pub fn process_memory(&mut self, control: &mut MemoryControl) -> (r: Result<(), Error>)
        requires
            old(self).wf(),
            old(self).stage == Stage::Ready,
            old(self).has_memory,
            memory_ok(old(self).devices@, old(control)@, memory_of(old(self).view)),
        ensures
            final(self).wf(),
            final(self).kept(*old(self)),
            memory_ok(final(self).devices@, final(control)@, memory_of(final(self).view)),
            tend_rel(old(self).tending(old(control)@), final(self).tending(final(control)@), r),
            old(self).consistent() && !lost(r) ==> final(self).consistent(),
    {
        let ghost s0 = self.tending(control@);
        let e: Result<bool, Error> = self.sync_memory(control);
        let ghost s = self.tending(control@);
        assert(sync_rel(s0, s, e));
        match e {
            Err(e) => {
                return Err(e);
            },
            Ok(pending) => {
                if !pending {
                    return Ok(());
                }
            },
        }
        let p: Result<Pins, Error> = self.quiesce();
        let ghost t = self.tending(control@);
        let ghost q = plain(p);
        assert(quiesce_rel(s, t, q));
        let pinned: Pins = match p {
            Err(e) => {
                return Err(e);
            },
            Ok(p) => p,
        };
        let w: Result<(), Error> = self.plug_memory(&pinned, control);
        let ghost u = self.tending(control@);
        assert(plug_rel(q->Ok_0, t, u, w));
        match w {
            Err(e) => Err(e),
            Ok(_) => self.release(),
        }
    }
}

/// Making the data of the first `n` devices durable. Every device gets its
/// turn; the first failure is kept.
pub open spec fn flushes_rel<BS: BlockStorage, ND: NetDevice>(
    n: nat,
    d0: Seq<MmioView<Device<BS, ND>>>,
    d1: Seq<MmioView<Device<BS, ND>>>,
    first: Option<DeviceError>,
) -> bool
    decreases n,
{
    if n == 0 {
        d1 == d0 && first is None
    } else {
        exists|d: Seq<MmioView<Device<BS, ND>>>, f: Option<DeviceError>, w: Result<(), DeviceError>|
            {
                &&& #[trigger] through((d, f, w))
                &&& flushes_rel((n - 1) as nat, d0, d, f)
                &&& d1 == d.update(n - 1, d1[n - 1])
                &&& d1[n - 1] == (MmioView { device: d1[n - 1].device, ..d[n - 1] })
                &&& Device::<BS, ND>::flush_rel(d[n - 1].device, d1[n - 1].device, w)
                &&& first == match (f, w) {
                    (Some(e), _) => Some(e),
                    (None, Err(e)) => Some(e),
                    (None, Ok(_)) => None,
                }
            }
    }
}

/// The state of dynamic memory, if it is there.
pub open spec fn status_of(control: Option<MemoryControl>) -> Option<MemoryStatus> {
    match control {
        Some(c) => Some(c@),
        None => None,
    }
}

/// What cleaning up led to.
pub struct Cleanup {
    /// The first failure to flush a device or to unmap base memory.
    pub result: Result<(), Error>,
    /// Blocks of dynamic memory that could not be unmapped.
    pub stuck: Vec<MemoryError>,
}

/// The first failure so far, or the one that is new.
pub open spec fn failing(result: Result<(), Error>, new: Option<Error>) -> Result<(), Error> {
    match (result, new) {
        (Ok(_), Some(e)) => Err(e),
        _ => result,
    }
}

/// A failure of a device, if there is one.
pub open spec fn device_failure(e: Option<DeviceError>) -> Option<Error> {
    match e {
        Some(e) => Some(Error::Device(e)),
        None => None,
    }
}

/// A failure of memory, if there is one.
pub open spec fn memory_failure(e: Option<MemoryError>) -> Option<Error> {
    match e {
        Some(e) => Some(Error::Memory(e)),
        None => None,
    }
}

/// The blocks of dynamic memory that may be mapped; none, if there is none or
/// no VM that could map it.
pub open spec fn held_of<VM: VirtualMachine, BS: BlockStorage, ND: NetDevice>(
    s: Runtime<VM, BS, ND>,
) -> Seq<Piece> {
    if s.has_memory && s.vm is Some {
        match s.devices@.last().device {
            Device::Mem(d) => held_pieces(d@),
            _ => Seq::empty(),
        }
    } else {
        Seq::empty()
    }
}

/// The base memory that was mapped.
pub open spec fn mapped_of<VM: VirtualMachine, BS: BlockStorage, ND: NetDevice>(
    s: Runtime<VM, BS, ND>,
) -> Seq<Piece> {
    if s.vm is Some {
        pieces(s.base@).take(s.mapped as int)
    } else {
        Seq::empty()
    }
}

/// The calls of a VM after `more`; none, if there is no VM.
pub open spec fn called<VM: VirtualMachine>(vm: Option<VM>, more: Seq<VmCall>) -> Seq<VmCall> {
    if vm is Some {
        calls_of(vm) + more
    } else {
        Seq::empty()
    }
}

/// The next step of cleaning up. Each is done once, in this order: the vCPUs are
/// stopped, all devices are flushed, dynamic memory is unmapped, then the base
/// memory that was mapped, then the VM is destroyed, and only then its memory
/// and the devices are released. `false` means that there is no step left.
pub open spec fn close_rel<VM: VirtualMachine, BS: BlockStorage, ND: NetDevice>(
    s0: Runtime<VM, BS, ND>,
    c0: Option<MemoryStatus>,
    o0: Cleanup,
    s1: Runtime<VM, BS, ND>,
    c1: Option<MemoryStatus>,
    o1: Cleanup,
    r: bool,
) -> bool {
    &&& s1.layout == s0.layout
    &&& s1.has_memory == s0.has_memory
    &&& s1.stage == s0.stage
    &&& r == (s0.closing != Closing::Released)
    &&& s0.closing != Closing::Destroyed ==> s1.base == s0.base && s1.view == s0.view && s1.mapped
        == s0.mapped
    &&& s0.closing != Closing::Flushed ==> c1 == c0 && o1.stuck == o0.stuck
    &&& s0.closing != Closing::Stopped && s0.closing != Closing::Unplugged ==> o1.result
        == o0.result
    &&& s0.closing != Closing::Stopped && s0.closing != Closing::Destroyed ==> s1.devices
        == s0.devices
    &&& match s0.closing {
        Closing::Open => {
            &&& s1.closing == Closing::Stopped
            &&& s1.vm is Some == s0.vm is Some
            &&& calls_of(s1.vm) == called(s0.vm, seq![VmCall::Stopped])
        },
        Closing::Stopped => {
            &&& s1.closing == Closing::Flushed
            &&& s1.vm == s0.vm
            &&& exists|flushed: Option<DeviceError>|
                #[trigger] through(flushed) && flushes_rel(
                    s0.devices@.len(),
                    views(s0.devices@),
                    views(s1.devices@),
                    flushed,
                ) && o1.result == failing(o0.result, device_failure(flushed))
            &&& same_memory_device(s0.devices@, s1.devices@)
        },
        Closing::Flushed => {
            &&& s1.closing == Closing::Unplugged
            &&& s1.vm is Some == s0.vm is Some
            &&& exists|answers: Seq<Result<(), MemoryError>>|
                #[trigger] through(answers) && answers.len() == held_of(s0).len() && calls_of(s1.vm)
                    == called(s0.vm, unmaps(held_of(s0), answers)) && o1.stuck@ == o0.stuck@
                    + failures(answers)
            &&& c1 == if s0.has_memory && s0.vm is Some {
                memory_stopped(c0)
            } else {
                c0
            }
        },
        Closing::Unplugged => {
            &&& s1.closing == Closing::Unmapped
            &&& s1.vm is Some == s0.vm is Some
            &&& exists|answers: Seq<Result<(), MemoryError>>|
                #[trigger] through(answers) && answers.len() == mapped_of(s0).len() && calls_of(
                    s1.vm,
                ) == called(s0.vm, unmaps(mapped_of(s0), answers)) && o1.result == failing(
                    o0.result,
                    memory_failure(first_error(answers)),
                )
        },
        Closing::Unmapped => s1.closing == Closing::Destroyed && s1.vm is None,
        Closing::Destroyed => {
            &&& s1.closing == Closing::Released
            &&& s1.vm == s0.vm
            &&& s1.base@.len() == 0
            &&& s1.view is None
            &&& s1.mapped == 0
            &&& s1.devices@.len() == 0
        },
        Closing::Released => s1.closing == Closing::Released && s1.vm == s0.vm,
    }
}

/// The first `n` steps of cleaning up.
pub open spec fn closes_rel<VM: VirtualMachine, BS: BlockStorage, ND: NetDevice>(
    n: nat,
    s0: Runtime<VM, BS, ND>,
    c0: Option<MemoryStatus>,
    o0: Cleanup,
    s1: Runtime<VM, BS, ND>,
    c1: Option<MemoryStatus>,
    o1: Cleanup,
) -> bool
    decreases n,
{
    if n == 0 {
        s1 == s0 && c1 == c0 && o1 == o0
    } else {
        exists|s: Runtime<VM, BS, ND>, c: Option<MemoryStatus>, o: Cleanup|
            {
                &&& #[trigger] through((s, c, o))
                &&& closes_rel((n - 1) as nat, s0, c0, o0, s, c, o)
                &&& close_rel(s, c, o, s1, c1, o1, true)
            }
    }
}

/// How many steps of cleaning up are done.
pub open spec fn closed_steps(closing: Closing) -> nat {
    match closing {
        Closing::Open => 0,
        Closing::Stopped => 1,
        Closing::Flushed => 2,
        Closing::Unplugged => 3,
        Closing::Unmapped => 4,
        Closing::Destroyed => 5,
        Closing::Released => 6,
    }
}

impl<VM: VirtualMachine, BS: BlockStorage, ND: NetDevice> Runtime<VM, BS, ND> {
    /// Cleaning up has come as far as its state says.
    pub open spec fn tidy(self) -> bool {
        &&& self.closing != Closing::Released ==> devices_ok(self.devices@, self.has_memory)
        &&& self.mapped <= self.base@.len()
        &&& closed_steps(self.closing) >= 5 ==> self.vm is None
    }

    fn flush_all(&mut self) -> (r: Option<DeviceError>)
        requires
            devices_ok(old(self).devices@, old(self).has_memory),
        ensures
            devices_ok(final(self).devices@, final(self).has_memory),
            final(self).kept(*old(self)),
            final(self).vm == old(self).vm,
            final(self).view == old(self).view,
            same_memory_device(old(self).devices@, final(self).devices@),
            flushes_rel(
                old(self).devices@.len(),
                views(old(self).devices@),
                views(final(self).devices@),
                r,
            ),
    {
        let ghost devices0 = self.devices@;
        let ghost d0 = views(self.devices@);
        let mut first: Option<DeviceError> = None;
        let mut i: usize = 0;
        while i < self.devices.len()
            invariant
                i <= self.devices@.len(),
                devices0 == old(self).devices@,
                d0 == views(devices0),
                devices_ok(self.devices@, self.has_memory),
                self.kept(*old(self)),
                self.vm == old(self).vm,
                self.view == old(self).view,
                same_memory_device(devices0, self.devices@),
                flushes_rel(i as nat, d0, views(self.devices@), first),
            decreases self.devices@.len() - i,
        {
            let ghost before = self.devices@;
            let ghost d = views(self.devices@);
            let ghost f = first;
            assert(before[i as int]@.wf());
            let w: Result<(), DeviceError> = self.devices[i].flush();
            let ghost answer = w;
            match w {
                Ok(_) => {},
                Err(e) => {
                    if first.is_none() {
                        first = Some(e);
                    }
                },
            }
            proof {
                let d1 = views(self.devices@);
                assert(d1 =~= d.update(i as int, self.devices@[i as int]@));
                assert(through((d, f, answer)));
                assert(flushes_rel((i + 1) as nat, d0, d1, first));
                assert forall|k: int| 0 <= k < self.devices@.len() implies (
                #[trigger] self.devices@[k])@.wf() && (self.devices@[k].device is Mem
                    <==> self.has_memory && k == self.devices@.len() - 1) by {
                    assert(before[k]@.wf());
                }
            }
            i = i + 1;
        }
        first
    }

    /// Unmaps dynamic memory. Returns the failures.
    fn unplug_all(&mut self, control: &mut Option<MemoryControl>) -> (r: Vec<MemoryError>)
        requires
            devices_ok(old(self).devices@, old(self).has_memory),
            old(self).has_memory ==> status_of(*old(control)) is Some,
        ensures
            final(self).kept(*old(self)),
            final(self).devices == old(self).devices,
            final(self).view == old(self).view,
            exists|answers: Seq<Result<(), MemoryError>>|
                #[trigger] through(answers) && answers.len() == held_of(*old(self)).len()
                    && calls_of(final(self).vm) == called(
                    old(self).vm,
                    unmaps(held_of(*old(self)), answers),
                ) && r@ == failures(answers),
            status_of(*final(control)) == if old(self).has_memory && old(self).vm is Some {
                memory_stopped(status_of(*old(control)))
            } else {
                status_of(*old(control))
            },
    {
        let ghost c0 = calls_of(self.vm);
        if self.has_memory {
            let last: usize = self.devices.len() - 1;
            assert(self.devices@[last as int]@.wf());
            match (&self.devices[last].device, &mut self.vm, control) {
                (Device::Mem(d), Some(vm), Some(c)) => {
                    let stuck: Vec<MemoryError> = d.stop(c, vm);
                    assert(called(old(self).vm, Seq::empty()) =~= c0);
                    return stuck;
                },
                _ => {},
            }
        }
        let ghost none: Seq<Result<(), MemoryError>> = Seq::empty();
        let stuck: Vec<MemoryError> = Vec::new();
        proof {
            assert(through(none));
            assert(unmaps(held_of(*old(self)), none) =~= Seq::empty());
            assert(self.vm is Some ==> c0 + Seq::<VmCall>::empty() =~= c0);
            assert(stuck@ =~= failures(none));
        }
        stuck
    }

    /// Unmaps the base memory that was mapped, and goes on past a failure.
    /// Returns the first one.
    fn unmap_base(&mut self) -> (r: Option<MemoryError>)
        requires
            old(self).mapped <= old(self).base@.len(),
        ensures
            final(self).kept(*old(self)),
            final(self).devices == old(self).devices,
            final(self).view == old(self).view,
            exists|answers: Seq<Result<(), MemoryError>>|
                #[trigger] through(answers) && answers.len() == mapped_of(*old(self)).len()
                    && calls_of(final(self).vm) == called(
                    old(self).vm,
                    unmaps(mapped_of(*old(self)), answers),
                ) && r == first_error(answers),
    {
        let ghost list = mapped_of(*self);
        let ghost c0 = calls_of(self.vm);
        let ghost mut answers: Seq<Result<(), MemoryError>> = Seq::empty();
        let mut first: Option<MemoryError> = None;
        let count: usize = if self.vm.is_some() {
            self.mapped
        } else {
            0
        };
        let mut i: usize = 0;
        assert(unmaps(list, answers) =~= Seq::empty());
        assert(self.vm is Some ==> c0 + Seq::<VmCall>::empty() =~= c0);
        while i < count
            invariant
                i <= count <= self.base@.len(),
                self.kept(*old(self)),
                self.devices == old(self).devices,
                self.view == old(self).view,
                c0 == calls_of(old(self).vm),
                list == mapped_of(*old(self)),
                count == list.len(),
                count > 0 ==> self.vm is Some && list == pieces(self.base@).take(count as int),
                answers.len() == i,
                calls_of(self.vm) == called(old(self).vm, unmaps(list, answers)),
                first == first_error(answers),
            decreases count - i,
        {
            let ghost seen = answers;
            assert(list[i as int] == self.base@[i as int].piece());
            let a: Result<(), MemoryError> = match &mut self.vm {
                Some(vm) => vm.unmap(&self.base[i]),
                None => Ok(()),
            };
            proof {
                answers = seen.push(a);
                assert(answers.drop_last() =~= seen);
                assert(unmaps(list, answers) =~= unmaps(list, seen).push(
                    VmCall::Unmapped { piece: list[i as int], result: a },
                ));
                assert(calls_of(self.vm) =~= c0 + unmaps(list, answers));
            }
            match a {
                Ok(_) => {},
                Err(e) => {
                    if first.is_none() {
                        first = Some(e);
                    }
                },
            }
            i = i + 1;
        }
        assert(through(answers));
        first
    }

    /// Does the next step of cleaning up, and adds what it led to.
    pub fn close(&mut self, control: &mut Option<MemoryControl>, outcome: &mut Cleanup) -> (r: bool)
        requires
            old(self).tidy(),
            old(self).has_memory ==> status_of(*old(control)) is Some,
        ensures
            final(self).tidy(),
            final(self).has_memory ==> status_of(*final(control)) is Some,
            close_rel(
                *old(self),
                status_of(*old(control)),
                *old(outcome),
                *final(self),
                status_of(*final(control)),
                *final(outcome),
                r,
            ),
    {
        match self.closing {
            Closing::Open => {
                match &mut self.vm {
                    Some(vm) => vm.stop(),
                    None => {},
                }
                assert(calls_of(self.vm) =~= called(old(self).vm, seq![VmCall::Stopped]));
                self.closing = Closing::Stopped;
            },
            Closing::Stopped => {
                let flushed: Option<DeviceError> = self.flush_all();
                assert(through(flushed));
                match (outcome.result.is_ok(), flushed) {
                    (true, Some(e)) => {
                        outcome.result = Err(Error::Device(e));
                    },
                    _ => {},
                }
                self.closing = Closing::Flushed;
            },
            Closing::Flushed => {
                let mut stuck: Vec<MemoryError> = self.unplug_all(control);
                outcome.stuck.append(&mut stuck);
                self.closing = Closing::Unplugged;
            },
            Closing::Unplugged => {
                let first: Option<MemoryError> = self.unmap_base();
                match (outcome.result.is_ok(), first) {
                    (true, Some(e)) => {
                        outcome.result = Err(Error::Memory(e));
                    },
                    _ => {},
                }
                self.closing = Closing::Unmapped;
            },
            Closing::Unmapped => {
                self.vm = None;
                self.closing = Closing::Destroyed;
            },
            Closing::Destroyed => {
                self.view = None;
                self.base = Vec::new();
                self.mapped = 0;
                self.devices = Vec::new();
                self.closing = Closing::Released;
            },
            Closing::Released => {
                return false;
            },
        }
        true
    }

    /// Cleans up: stops the VM, flushes the devices, unmaps all memory, destroys
    /// the VM and releases what it mapped.
    pub fn cleanup(&mut self, control: &mut Option<MemoryControl>) -> (r: Cleanup)
        requires
            old(self).wf(),
            old(self).has_memory ==> status_of(*old(control)) is Some,
        ensures
            final(self).closing == Closing::Released,
            final(self).vm is None,
            cleanup_rel(
                *old(self),
                status_of(*old(control)),
                *final(self),
                status_of(*final(control)),
                r,
            ),
    {
        let mut outcome: Cleanup = Cleanup { result: Ok(()), stuck: Vec::new() };
        let ghost s0 = *self;
        let ghost c0 = status_of(*control);
        let ghost o0 = outcome;
        loop
            invariant
                self.tidy(),
                self.has_memory ==> status_of(*control) is Some,
                s0.closing == Closing::Open,
                closes_rel(
                    closed_steps(self.closing),
                    s0,
                    c0,
                    o0,
                    *self,
                    status_of(*control),
                    outcome,
                ),
            ensures
                self.tidy(),
                self.closing == Closing::Released,
                closes_rel(6, s0, c0, o0, *self, status_of(*control), outcome),
            decreases 6 - closed_steps(self.closing),
        {
            let ghost s = *self;
            let ghost c = status_of(*control);
            let ghost o = outcome;
            if !self.close(control, &mut outcome) {
                assert(closed_steps(self.closing) == 6);
                break;
            }
            assert(through((s, c, o)));
        }
        assert(through(o0));
        outcome
    }
}

/// Cleaning up from its beginning to its end.
pub open spec fn cleanup_rel<VM: VirtualMachine, BS: BlockStorage, ND: NetDevice>(
    s0: Runtime<VM, BS, ND>,
    c0: Option<MemoryStatus>,
    s1: Runtime<VM, BS, ND>,
    c1: Option<MemoryStatus>,
    r: Cleanup,
) -> bool {
    exists|o: Cleanup|
        #[trigger] through(o) && o.result == Ok::<(), Error>(()) && o.stuck@.len() == 0
            && closes_rel(6, s0, c0, o, s1, c1, r)
}

/// The last of `n` steps of cleaning up.
proof fn lemma_last_close<VM: VirtualMachine, BS: BlockStorage, ND: NetDevice>(
    n: nat,
    s0: Runtime<VM, BS, ND>,
    c0: Option<MemoryStatus>,
    o0: Cleanup,
    s1: Runtime<VM, BS, ND>,
    c1: Option<MemoryStatus>,
    o1: Cleanup,
) -> (r: (Runtime<VM, BS, ND>, Option<MemoryStatus>, Cleanup))
    requires
        n > 0,
        closes_rel(n, s0, c0, o0, s1, c1, o1),
    ensures
        closes_rel((n - 1) as nat, s0, c0, o0, r.0, r.1, r.2),
        close_rel(r.0, r.1, r.2, s1, c1, o1, true),
{
    choose|s: Runtime<VM, BS, ND>, c: Option<MemoryStatus>, o: Cleanup|
        {
            &&& #[trigger] through((s, c, o))
            &&& closes_rel((n - 1) as nat, s0, c0, o0, s, c, o)
            &&& close_rel(s, c, o, s1, c1, o1, true)
        }
}

/// What cleaning up asks of the VM is, in this order: to stop, to unmap dynamic
/// memory, to unmap base memory. All memory is still held when the VM is
/// destroyed after that, and released then. Every failure is reported, those of
/// the devices before those of base memory.
pub proof fn cleanup_goes_in_order<VM: VirtualMachine, BS: BlockStorage, ND: NetDevice>(
    s0: Runtime<VM, BS, ND>,
    c0: Option<MemoryStatus>,
    s1: Runtime<VM, BS, ND>,
    c1: Option<MemoryStatus>,
    r: Cleanup,
)
    requires
        s0.wf(),
        cleanup_rel(s0, c0, s1, c1, r),
    ensures
        exists|
            u: Runtime<VM, BS, ND>,
            flushed: Option<DeviceError>,
            dynamic: Seq<Result<(), MemoryError>>,
            base: Seq<Result<(), MemoryError>>,
        |
            {
                &&& #[trigger] through((u, flushed, dynamic, base))
                &&& u.closing == Closing::Unmapped
                &&& u.base == s0.base
                &&& u.view == s0.view
                &&& u.vm is Some == s0.vm is Some
                &&& flushes_rel(s0.devices@.len(), views(s0.devices@), views(u.devices@), flushed)
                &&& dynamic.len() == held_of(s0).len()
                &&& base.len() == mapped_of(s0).len()
                &&& calls_of(u.vm) == called(
                    s0.vm,
                    seq![VmCall::Stopped] + unmaps(held_of(s0), dynamic) + unmaps(
                        mapped_of(s0),
                        base,
                    ),
                )
                &&& r.stuck@ == failures(dynamic)
                &&& r.result == failing(
                    failing(Ok(()), device_failure(flushed)),
                    memory_failure(first_error(base)),
                )
            },
        s1.vm is None,
        s1.base@.len() == 0,
        s1.view is None,
        s1.devices@.len() == 0,
        c1 == if s0.has_memory && s0.vm is Some {
            memory_stopped(c0)
        } else {
            c0
        },
{
    let o0 = choose|o: Cleanup|
        #[trigger] through(o) && o.result == Ok::<(), Error>(()) && o.stuck@.len() == 0
            && closes_rel(6, s0, c0, o, s1, c1, r);
    let (e, ce, oe) = lemma_last_close(6, s0, c0, o0, s1, c1, r);
    let (u, cu, ou) = lemma_last_close(5, s0, c0, o0, e, ce, oe);
    let (d, cd, od) = lemma_last_close(4, s0, c0, o0, u, cu, ou);
    let (b, cb, ob) = lemma_last_close(3, s0, c0, o0, d, cd, od);
    let (a, ca, oa) = lemma_last_close(2, s0, c0, o0, b, cb, ob);
    let (z, cz, oz) = lemma_last_close(1, s0, c0, o0, a, ca, oa);
    assert(z == s0);
    let flushed = choose|flushed: Option<DeviceError>|
        #[trigger] through(flushed) && flushes_rel(
            a.devices@.len(),
            views(a.devices@),
            views(b.devices@),
            flushed,
        ) && ob.result == failing(oa.result, device_failure(flushed));
    if s0.has_memory {
        assert(b.devices@[b.devices@.len() - 1].device == a.devices@[a.devices@.len()
            - 1].device);
    }
    assert(held_of(b) == held_of(s0));
    let dynamic = choose|answers: Seq<Result<(), MemoryError>>|
        #[trigger] through(answers) && answers.len() == held_of(b).len() && calls_of(d.vm)
            == called(b.vm, unmaps(held_of(b), answers)) && od.stuck@ == ob.stuck@ + failures(
            answers,
        );
    let base = choose|answers: Seq<Result<(), MemoryError>>|
        #[trigger] through(answers) && answers.len() == mapped_of(d).len() && calls_of(u.vm)
            == called(d.vm, unmaps(mapped_of(d), answers)) && ou.result == failing(
            od.result,
            memory_failure(first_error(answers)),
        );
    assert(mapped_of(d) == mapped_of(s0));
    assert(calls_of(u.vm) =~= called(
        s0.vm,
        seq![VmCall::Stopped] + unmaps(held_of(s0), dynamic) + unmaps(mapped_of(s0), base),
    ));
    assert(r.stuck@ =~= failures(dynamic));
    assert(through((u, flushed, dynamic, base)));
}

impl<VM: VirtualMachine, BS: BlockStorage, ND: NetDevice> Runtime<VM, BS, ND> {
    /// What is mapped for the guest is the base memory that was mapped, and what
    /// is plugged.
    pub open spec fn accounted(self) -> bool {
        standing(Set::empty(), calls_of(self.vm)) == mapped_of(self).to_set().union(
            match self.dynamic() {
                Some(d) => plugged_pieces(d),
                None => Set::empty(),
            },
        )
    }
}

/// While it starts up and while it runs, a VM has exactly the base memory mapped
/// that cleaning up will unmap, and what is plugged.
pub proof fn mappings_are_accounted_for<VM: VirtualMachine, BS: BlockStorage, ND: NetDevice>(
    s: Runtime<VM, BS, ND>,
)
    requires
        s.wf(),
        s.vm is Some,
        (s.on_course() && s.unplugged()) || (s.consistent() && s.mapped == s.base@.len()
            && memory_of(s.view).wf() && (s.dynamic() matches Some(d) ==> d.mirrored(
            memory_of(s.view),
        ))),
    ensures
        s.accounted(),
{
    let none = Set::<Piece>::empty();
    let all = pieces(s.base@);
    let part = all.take(s.mapped as int);
    let memory = memory_of(s.view);
    if s.has_memory {
        assert(s.devices@[s.devices@.len() - 1]@.wf());
    }
    if s.on_course() && s.unplugged() {
        let maps = granted(part, true);
        lemma_granted(none, part, true);
        assert(standing(none, maps) =~= part.to_set());
        let prepared = VmCall::Prepared {
            memory: base_memory(s.base@),
            layout: s.layout,
            result: Ok(()),
        };
        lemma_silent(none, maps, prepared);
        lemma_silent(none, maps.push(prepared), VmCall::Started { result: Ok(()) });
        assert(standing(none, calls_of(s.vm)) == part.to_set());
        if let Some(d) = s.dynamic() {
            assert(plugged_pieces(d) =~= Set::empty());
        }
        assert(mapped_of(s).to_set().union(none) =~= part.to_set());
    } else {
        assert(part =~= all);
        if let Some(d) = s.dynamic() {
            window_holds_the_plugged_blocks(d, memory);
        } else {
            assert(all.to_set().union(none) =~= all.to_set());
        }
    }
}

/// Where cleaning up reports no failure, nothing is mapped any more when the VM
/// is destroyed.
pub proof fn clean_cleanup_leaves_nothing_mapped<
    VM: VirtualMachine,
    BS: BlockStorage,
    ND: NetDevice,
>(
    s0: Runtime<VM, BS, ND>,
    c0: Option<MemoryStatus>,
    s1: Runtime<VM, BS, ND>,
    c1: Option<MemoryStatus>,
    r: Cleanup,
)
    requires
        s0.wf(),
        s0.vm is Some,
        s0.accounted(),
        s0.dynamic() matches Some(d) ==> d.retained.len() == 0,
        cleanup_rel(s0, c0, s1, c1, r),
        r.result is Ok,
        r.stuck@.len() == 0,
    ensures
        exists|u: Runtime<VM, BS, ND>|
            #[trigger] through(u) && u.closing == Closing::Unmapped && u.base == s0.base && standing(
                Set::empty(),
                calls_of(u.vm),
            ) == Set::<Piece>::empty(),
{
    cleanup_goes_in_order(s0, c0, s1, c1, r);
    let (u, flushed, dynamic, base) = choose|
        u: Runtime<VM, BS, ND>,
        flushed: Option<DeviceError>,
        dynamic: Seq<Result<(), MemoryError>>,
        base: Seq<Result<(), MemoryError>>,
    |
        {
            &&& #[trigger] through((u, flushed, dynamic, base))
            &&& u.closing == Closing::Unmapped
            &&& u.base == s0.base
            &&& dynamic.len() == held_of(s0).len()
            &&& base.len() == mapped_of(s0).len()
            &&& calls_of(u.vm) == called(
                s0.vm,
                seq![VmCall::Stopped] + unmaps(held_of(s0), dynamic) + unmaps(mapped_of(s0), base),
            )
            &&& r.stuck@ == failures(dynamic)
            &&& r.result == failing(
                failing(Ok(()), device_failure(flushed)),
                memory_failure(first_error(base)),
            )
        };
    let none = Set::<Piece>::empty();
    let c = calls_of(s0.vm);
    lemma_no_failures(dynamic);
    lemma_no_error(base);
    let stopped = c.push(VmCall::Stopped);
    lemma_silent(none, c, VmCall::Stopped);
    let unplugged = stopped + unmaps(held_of(s0), dynamic);
    lemma_all_unmapped(none, stopped, held_of(s0), dynamic);
    lemma_all_unmapped(none, unplugged, mapped_of(s0), base);
    assert(calls_of(u.vm) =~= unplugged + unmaps(mapped_of(s0), base));
    match s0.dynamic() {
        Some(d) => {
            assert(s0.devices@[s0.devices@.len() - 1]@.wf());
            held_blocks_are_the_plugged_ones(d);
        },
        None => {
            assert(held_of(s0) =~= Seq::empty());
        },
    }
    assert(standing(none, calls_of(u.vm)) =~= none);
    assert(through(u));
}

/// A driver that resets dynamic memory through its registers takes nothing from
/// the guest: the same allocations stay plugged, in view and mapped, and no byte
/// is touched.
pub proof fn reset_keeps_data<C, BS: BlockStorage, ND: NetDevice>(
    layout: MachineLayout,
    a: IoAccess<C>,
    token: int,
    slot: usize,
    s0: Turn<BS, ND>,
    s1: Turn<BS, ND>,
    r: Result<(), Error>,
)
    requires
        a.write,
        a.width == 4,
        a.value % 0x1_0000_0000 == 0,
        route(layout, a) == (Route::Slot { slot, offset: 0x70 }),
        0 <= slot < s0.devices.len(),
        s0.devices[slot as int].device is Mem,
        access_rel(layout, a, token, s0, s1, r),
    ensures
        s1.memory == s0.memory,
        standing(Set::empty(), s1.calls) == standing(Set::empty(), s0.calls),
        s1.devices[slot as int].device matches Device::Mem(d) && d@ == (MemView {
            ready: false,
            ..s0.devices[slot as int].device->Mem_0@
        }),
        forall|i: int|
            0 <= i < s0.devices.len() && i != slot ==> #[trigger] s1.devices[i] == s0.devices[i],
{
    let (s, w) = choose|s: Turn<BS, ND>, w: Result<(), DeviceError>|
        {
            &&& #[trigger] through((s, w))
            &&& write_rel(
                s0.devices[slot as int],
                0x70,
                0,
                s0.memory,
                s.devices[slot as int],
                s.memory,
                w,
            )
            &&& s == (Turn {
                devices: s0.devices.update(slot as int, s.devices[slot as int]),
                memory: s.memory,
                ..s0
            })
            &&& match w {
                Err(e) => s1 == s && r == Err::<(), Error>(Error::Device(e)),
                Ok(_) => answered(s, token, 0, s1, r),
            }
        };
    let answer = choose|answer: Result<(), PlatformError>|
        #[trigger] through(answer) && s1 == (Turn {
            calls: s.calls.push(VmCall::Completed { token, value: 0, result: answer }),
            ..s
        });
    lemma_silent(
        Set::empty(),
        s.calls,
        VmCall::Completed { token, value: 0, result: answer },
    );
}

/// Everything that a turn of the run loop may change.
pub struct Whole<BS: BlockStorage, ND: NetDevice> {
    pub turn: Turn<BS, ND>,
    pub status: Option<MemoryStatus>,
}

impl<BS: BlockStorage, ND: NetDevice> Whole<BS, ND> {
    /// The same but for what a turn may change.
    pub open spec fn but(self, turn: Turn<BS, ND>) -> Self {
        Whole { turn, ..self }
    }
}

/// What a turn of the run loop led to.
#[derive(Clone, Copy, Debug, PartialEq, Eq, Structural)]
pub enum Progress {
    Continue,
    Stop,
}

/// The second half of a turn: dynamic memory, where there is any.
pub open spec fn memory_turn_rel<BS: BlockStorage, ND: NetDevice>(
    has_memory: bool,
    s0: Whole<BS, ND>,
    s1: Whole<BS, ND>,
    r: Result<(), Error>,
) -> bool {
    if !has_memory {
        s1 == s0 && r == Ok::<(), Error>(())
    } else {
        &&& s0.status is Some
        &&& s1.status is Some
        &&& s1.turn == (Turn {
            devices: s1.turn.devices,
            memory: s1.turn.memory,
            calls: s1.turn.calls,
            ..s0.turn
        })
        &&& tend_rel(
            (Tending {
                devices: s0.turn.devices,
                status: s0.status->0,
                memory: s0.turn.memory,
                calls: s0.turn.calls,
            }),
            (Tending {
                devices: s1.turn.devices,
                status: s1.status->0,
                memory: s1.turn.memory,
                calls: s1.turn.calls,
            }),
            r,
        )
    }
}

/// How long a turn waits for an event of the guest.
pub const EVENT_TIMEOUT_MS: u64 = 2;

impl<VM: VirtualMachine, BS: BlockStorage, ND: NetDevice> Runtime<VM, BS, ND> {
    pub open spec fn whole(
        self,
        uart: UartView,
        serial: Seq<SerialCall>,
        status: Option<MemoryStatus>,
    ) -> Whole<BS, ND> {
        Whole { turn: self.turn(uart, serial), status }
    }

    /// A turn of the run loop: input, the UART's line, the devices, dynamic
    /// memory, the devices' lines, then one event of the guest.
    pub open spec fn work_rel(
        layout: MachineLayout,
        has_memory: bool,
        s0: Whole<BS, ND>,
        s1: Whole<BS, ND>,
        r: Result<Progress, Error>,
    ) -> bool {
        exists|a: Whole<BS, ND>, e: Result<bool, Error>|
            {
                &&& #[trigger] through((a, e))
                &&& devices_rel(layout.uart.irq, s0.turn, a.turn, e)
                &&& a.status == s0.status
                &&& match e {
                    Err(e) => s1 == a && r == Err::<Progress, Error>(e),
                    Ok(true) => s1 == a && r == Ok::<Progress, Error>(Progress::Stop),
                    Ok(false) => exists|b: Whole<BS, ND>, e: Result<(), Error>|
                        {
                            &&& #[trigger] through((b, e))
                            &&& memory_turn_rel(has_memory, a, b, e)
                            &&& match e {
                                Err(e) => s1 == b && r == Err::<Progress, Error>(e),
                                Ok(_) => Self::event_rel(layout, has_memory, b, s1, r),
                            }
                        },
                }
            }
    }

    /// The end of a turn: the devices' interrupt lines, then one event.
    pub open spec fn event_rel(
        layout: MachineLayout,
        has_memory: bool,
        s0: Whole<BS, ND>,
        s1: Whole<BS, ND>,
        r: Result<Progress, Error>,
    ) -> bool {
        exists|c: Seq<VmCall>, i: Result<(), PlatformError>|
            {
                &&& #[trigger] through((c, i))
                &&& irqs_rel(
                    s0.turn.devices.len(),
                    layout.virtio@,
                    s0.turn.devices,
                    s0.turn.calls,
                    c,
                    i,
                )
                &&& Self::last_rel(layout, has_memory, s0, c, i, s1, r)
            }
    }

    /// The event of a turn, once the devices' lines are driven with outcome `i`.
    pub open spec fn last_rel(
        layout: MachineLayout,
        has_memory: bool,
        s0: Whole<BS, ND>,
        c: Seq<VmCall>,
        i: Result<(), PlatformError>,
        s1: Whole<BS, ND>,
        r: Result<Progress, Error>,
    ) -> bool {
        match i {
            Err(e) => s1 == s0.but(Turn { calls: c, ..s0.turn }) && r == Err::<
                Progress,
                Error,
            >(Error::Platform(e)),
            Ok(_) => exists|event: Result<Option<Event<VM::Completion>>, PlatformError>|
                #[trigger] through(event) && {
                    let polled = Turn {
                        calls: c.push(
                            VmCall::Polled {
                                timeout_ms: EVENT_TIMEOUT_MS,
                                result: observed(event, |c: VM::Completion| VM::token(c)),
                            },
                        ),
                        ..s0.turn
                    };
                    match event {
                        Err(e) => s1 == s0.but(polled) && r == Err::<Progress, Error>(
                            Error::Platform(e),
                        ),
                        Ok(None) => s1 == s0.but(polled) && r == Ok::<Progress, Error>(
                            Progress::Continue,
                        ),
                        Ok(Some(Event::Shutdown)) => s1 == s0.but(polled) && r == Ok::<
                            Progress,
                            Error,
                        >(Progress::Stop),
                        Ok(Some(Event::Io(a))) => s1.status == published(
                            s0.status,
                            has_memory,
                            s1.turn.devices,
                        ) && exists|w: Result<(), Error>|
                            #[trigger] through(w) && access_rel(
                                layout,
                                a,
                                VM::token(a.completion),
                                polled,
                                s1.turn,
                                w,
                            ) && r == match w {
                                Ok(_) => Ok::<Progress, Error>(Progress::Continue),
                                Err(e) => Err(e),
                            },
                    }
                },
        }
    }

    /// What the guest asks for is served: a turn that gets as far as an event
    /// ends the loop where the guest shuts down and nowhere else, goes on where
    /// nothing happened, tells why the wait failed, and goes on after an access
    /// only where that access was answered.
    pub proof fn events_are_served(
        layout: MachineLayout,
        has_memory: bool,
        s0: Whole<BS, ND>,
        s1: Whole<BS, ND>,
        r: Result<Progress, Error>,
    )
        requires
            Self::event_rel(layout, has_memory, s0, s1, r),
        ensures
            s1.turn.calls.len() > s0.turn.calls.len() ==> match s1.turn.calls.last() {
                VmCall::Polled { result: Ok(Some(Seen::Shutdown)), .. } => r == Ok::<
                    Progress,
                    Error,
                >(Progress::Stop),
                VmCall::Polled { result: Ok(None), .. } => r == Ok::<Progress, Error>(
                    Progress::Continue,
                ),
                VmCall::Polled { result: Err(e), .. } => r == Err::<Progress, Error>(
                    Error::Platform(e),
                ),
                VmCall::Polled { result: Ok(Some(Seen::Io { .. })), .. } => r is Err,
                _ => true,
            },
            r == Ok::<Progress, Error>(Progress::Stop) ==> s1.turn.calls.last() == (
            VmCall::Polled { timeout_ms: EVENT_TIMEOUT_MS, result: Ok(Some(Seen::Shutdown)) }),
            r == Ok::<Progress, Error>(Progress::Continue) ==> {
                let calls = s1.turn.calls;
                ||| calls.last() == (VmCall::Polled {
                    timeout_ms: EVENT_TIMEOUT_MS,
                    result: Ok(None),
                })
                ||| {
                    &&& calls.last() matches VmCall::Completed { token, result: Ok(_), .. }
                    &&& calls[calls.len() - 2] matches VmCall::Polled {
                        result: Ok(Some(Seen::Io { token: asked, .. })),
                        ..
                    }
                    &&& token == asked
                }
            },
    {
        let (c, i) = choose|c: Seq<VmCall>, i: Result<(), PlatformError>|
            {
                &&& #[trigger] through((c, i))
                &&& irqs_rel(
                    s0.turn.devices.len(),
                    layout.virtio@,
                    s0.turn.devices,
                    s0.turn.calls,
                    c,
                    i,
                )
                &&& Self::last_rel(layout, has_memory, s0, c, i, s1, r)
            };
        if i is Err {
            lemma_irqs_last(
                s0.turn.devices.len(),
                layout.virtio@,
                s0.turn.devices,
                s0.turn.calls,
                c,
                i,
            );
        }
    }

    /// Dynamic memory, where there is any, agrees with its control state.
    pub open spec fn memory_agrees(self, status: Option<MemoryStatus>) -> bool {
        self.has_memory ==> status is Some && memory_ok(
            self.devices@,
            status->0,
            memory_of(self.view),
        )
    }

    /// Runs the VM for one turn.
    pub fn work<SI: SerialIo>(
        &mut self,
        uart: &mut Uart,
        io: &mut SI,
        control: &mut Option<MemoryControl>,
    ) -> (r: Result<Progress, Error>)
        requires
            old(self).wf(),
            old(self).stage == Stage::Ready,
            old(uart)@.wf(),
            old(self).memory_agrees(status_of(*old(control))),
        ensures
            final(self).wf(),
            final(self).kept(*old(self)),
            final(uart)@.wf(),
            final(self).memory_agrees(status_of(*final(control))),
            Self::work_rel(
                old(self).layout,
                old(self).has_memory,
                old(self).whole(old(uart)@, old(io).calls(), status_of(*old(control))),
                final(self).whole(final(uart)@, final(io).calls(), status_of(*final(control))),
                r,
            ),
            old(self).consistent() && !lost(r) ==> final(self).consistent(),
    {
        let ghost layout = self.layout;
        let ghost s0 = self.whole(uart@, io.calls(), status_of(*control));
        let polled: Result<bool, Error> = self.poll_devices(uart, io);
        let ghost a = self.whole(uart@, io.calls(), status_of(*control));
        assert(through((a, polled)));
        match polled {
            Err(e) => {
                return Err(e);
            },
            Ok(stop) => {
                if stop {
                    return Ok(Progress::Stop);
                }
            },
        }
        let tended: Result<(), Error> = if self.has_memory {
            match control {
                Some(c) => self.process_memory(c),
                None => Ok(()),
            }
        } else {
            Ok(())
        };
        let ghost b = self.whole(uart@, io.calls(), status_of(*control));
        assert(through((b, tended)));
        match tended {
            Err(e) => {
                return Err(e);
            },
            Ok(_) => {},
        }
        let r: Result<Progress, Error> = self.end_turn(uart, io, control);
        assert(Self::event_rel(
            layout,
            self.has_memory,
            b,
            self.whole(uart@, io.calls(), status_of(*control)),
            r,
        ));
        r
    }

    /// Drives the devices' interrupt lines, and serves one event of the guest.
    fn end_turn<SI: SerialIo>(
        &mut self,
        uart: &mut Uart,
        io: &mut SI,
        control: &mut Option<MemoryControl>,
    ) -> (r: Result<Progress, Error>)
        requires
            old(self).wf(),
            old(self).stage == Stage::Ready,
            old(uart)@.wf(),
            old(self).memory_agrees(status_of(*old(control))),
        ensures
            final(self).wf(),
            final(self).kept(*old(self)),
            final(uart)@.wf(),
            final(self).memory_agrees(status_of(*final(control))),
            Self::event_rel(
                old(self).layout,
                old(self).has_memory,
                old(self).whole(old(uart)@, old(io).calls(), status_of(*old(control))),
                final(self).whole(final(uart)@, final(io).calls(), status_of(*final(control))),
                r,
            ),
            old(self).consistent() && !lost(r) ==> final(self).consistent(),
    {
        let ghost s0 = self.whole(uart@, io.calls(), status_of(*control));
        let raised: Result<(), Error> = self.raise_irqs();
        let ghost c = calls_of(self.vm);
        proof {
            let i = choose|a: Result<(), PlatformError>|
                #[trigger] through(a) && raised == lifted(a) && irqs_rel(
                    s0.turn.devices.len(),
                    self.layout.virtio@,
                    s0.turn.devices,
                    s0.turn.calls,
                    c,
                    a,
                );
            assert(through((c, i)));
        }
        match raised {
            Err(e) => {
                return Err(e);
            },
            Ok(_) => {},
        }
        let event: Result<Option<Event<VM::Completion>>, PlatformError> = self.poll_event(
            EVENT_TIMEOUT_MS,
        );
        assert(through(event));
        let seen: Option<Event<VM::Completion>> = match event {
            Err(e) => {
                return Err(Error::Platform(e));
            },
            Ok(seen) => seen,
        };
        let found: Event<VM::Completion> = match seen {
            None => {
                return Ok(Progress::Continue);
            },
            Some(found) => found,
        };
        let a: IoAccess<VM::Completion> = match found {
            Event::Shutdown => {
                return Ok(Progress::Stop);
            },
            Event::Io(a) => a,
        };
        let ghost token = VM::token(a.completion);
        let ghost layout = self.layout;
        let ghost before = self.turn(uart@, io.calls());
        let w: Result<(), Error> = self.handle_io(a, uart, io);
        self.publish(control);
        assert(access_rel(layout, a, token, before, self.turn(uart@, io.calls()), w));
        assert(through(w));
        match w {
            Ok(_) => Ok(Progress::Continue),
            Err(e) => Err(e),
        }
    }

    /// Tells the controllers that dynamic memory runs, once startup is over.
    pub fn start_memory(&self, control: &mut Option<MemoryControl>)
        requires
            self.wf(),
        ensures
            status_of(*final(control)) == memory_running(
                status_of(*old(control)),
                self.has_memory,
            ),
    {
        if self.has_memory {
            match (&self.devices[self.devices.len() - 1].device, control) {
                (Device::Mem(d), Some(c)) => d.start(c),
                _ => {},
            }
        }
    }

    /// Tells the controllers whether the driver of dynamic memory is up, after
    /// it may have reset the device.
    pub fn publish(&self, control: &mut Option<MemoryControl>)
        requires
            self.wf(),
        ensures
            status_of(*final(control)) == published(
                status_of(*old(control)),
                self.has_memory,
                views(self.devices@),
            ),
    {
        if self.has_memory {
            match (&self.devices[self.devices.len() - 1].device, control) {
                (Device::Mem(d), Some(c)) => d.publish(c),
                _ => {},
            }
        }
    }
}

/// The state of dynamic memory once it runs.
pub open spec fn memory_running(status: Option<MemoryStatus>, has_memory: bool) -> Option<
    MemoryStatus,
> {
    match status {
        Some(s) => if has_memory {
            Some(MemoryStatus { lifecycle: MemoryLifecycle::Running, ..s })
        } else {
            status
        },
        None => None,
    }
}

/// The state of dynamic memory once its device was asked whether the driver is
/// up.
pub open spec fn published<BS: BlockStorage, ND: NetDevice>(
    status: Option<MemoryStatus>,
    has_memory: bool,
    devices: Seq<MmioView<Device<BS, ND>>>,
) -> Option<MemoryStatus> {
    match (status, devices.last().device) {
        (Some(s), Device::Mem(d)) => if has_memory {
            Some(MemoryStatus { driver_ready: d.ready, ..s })
        } else {
            status
        },
        _ => status,
    }
}

/// Dynamic memory, where there is any, is unchanged but for a reset.
pub open spec fn memory_kept<BS: BlockStorage, ND: NetDevice>(
    d0: Seq<Mmio<Device<BS, ND>>>,
    d1: Seq<Mmio<Device<BS, ND>>>,
) -> bool {
    forall|i: int|
        0 <= i < d0.len() && d0[i].device is Mem ==> (#[trigger] d1[i]).device is Mem && (
        d1[i].device->Mem_0@ == d0[i].device->Mem_0@ || d1[i].device->Mem_0@ == (MemView {
            ready: false,
            ..d0[i].device->Mem_0@
        }))
}

/// The calls of a startup that has come to `stage` without a failure.
pub open spec fn startup_calls(
    layout: MachineLayout,
    base: Seq<Piece>,
    memory: Memory,
    stage: Stage,
    mapped: nat,
) -> Seq<VmCall> {
    let maps = granted(base.take(mapped as int), true);
    let prepared = maps.push(VmCall::Prepared { memory, layout, result: Ok(()) });
    match stage {
        Stage::Allocate | Stage::Create => Seq::empty(),
        Stage::MapBase | Stage::Prepare => maps,
        Stage::Start => prepared,
        Stage::Ready => prepared.push(VmCall::Started { result: Ok(()) }),
    }
}

/// How many steps of startup are left at most.
pub open spec fn steps_left<VM: VirtualMachine, BS: BlockStorage, ND: NetDevice>(
    s: Runtime<VM, BS, ND>,
) -> nat {
    let ram = s.layout.ram@.len();
    match s.stage {
        Stage::Allocate => ram + 6,
        Stage::Create => ram + 5,
        Stage::MapBase => (ram - s.mapped + 3) as nat,
        Stage::Prepare => 2,
        Stage::Start => 1,
        Stage::Ready => 0,
    }
}

impl<VM: VirtualMachine, BS: BlockStorage, ND: NetDevice> Runtime<VM, BS, ND> {
    /// Startup has made exactly the calls of its stage, and what it maps for the
    /// guest is what the devices and the loader see.
    pub open spec fn on_course(self) -> bool {
        &&& self.stage != Stage::Allocate ==> ranges(self.base@) == ram_ranges(self.layout.ram@)
            && memory_of(self.view).same(base_memory(self.base@)) && (self.stage
            == Stage::Create || self.stage == Stage::MapBase || self.stage == Stage::Prepare
            ==> memory_of(self.view) == base_memory(self.base@)) && ordered(
            ram_ranges(self.layout.ram@),
        )
        &&& self.vm is Some ==> calls_of(self.vm) == startup_calls(
            self.layout,
            pieces(self.base@),
            base_memory(self.base@),
            self.stage,
            self.mapped as nat,
        )
        &&& self.stage == Stage::Prepare || self.stage == Stage::Start || self.stage
            == Stage::Ready ==> self.mapped == self.base@.len()
    }

    /// Starts the VM up, in the order of its stages; before each, `stopping` is
    /// asked. `false` means that a stop was wanted before the end.
    pub fn init<P: Platform<Vm = VM>, F: Fn() -> bool>(
        &mut self,
        config: &VmConfig,
        platform: &P,
        stopping: F,
    ) -> (r: Result<bool, Error>)
        requires
            old(self).wf(),
            old(self).on_course(),
            call_requires(stopping, ()),
        ensures
            final(self).wf(),
            final(self).layout == old(self).layout,
            final(self).devices == old(self).devices,
            final(self).has_memory == old(self).has_memory,
            match r {
                Ok(done) => exists|n: nat|
                    #[trigger] reaches(*platform, *config, n, *old(self), *final(self)),
                Err(e) => exists|n: nat, s: Runtime<VM, BS, ND>|
                    #[trigger] reaches(*platform, *config, n, *old(self), s) && s.on_course()
                        && advance_rel(*platform, *config, s, *final(self), Err(e)),
            },
            r is Ok ==> final(self).on_course(),
            r == Ok::<bool, Error>(true) <==> r is Ok && final(self).stage == Stage::Ready,
            r == Ok::<bool, Error>(true) && old(self).unplugged() ==> final(self).consistent(),
            r == Ok::<bool, Error>(false) ==> call_ensures(stopping, (), true),
            old(self).stage != Stage::Ready && (forall|b: bool|
                call_ensures(stopping, (), b) ==> b) ==> r == Ok::<bool, Error>(false)
                && *final(self) == *old(self),
    {
        let ghost mut n: nat = 0;
        loop
            invariant
                self.wf(),
                self.on_course(),
                call_requires(stopping, ()),
                self.layout == old(self).layout,
                self.devices == old(self).devices,
                self.has_memory == old(self).has_memory,
                reaches(*platform, *config, n, *old(self), *self),
                n > 0 ==> call_ensures(stopping, (), false),
                n == 0 ==> *self == *old(self),
            decreases steps_left(*self),
        {
            if matches!(self.stage, Stage::Ready) {
                proof {
                    if self.unplugged() {
                        startup_leaves_memory_consistent(*self);
                    }
                }
                return Ok(true);
            }
            if stopping() {
                return Ok(false);
            }
            let ghost s0 = *self;
            match self.advance(config, platform) {
                Err(e) => {
                    return Err(e);
                },
                Ok(_) => {},
            }
            proof {
                lemma_on_course(*platform, *config, s0, *self);
                assert(through(s0));
                n = n + 1;
                assert(reaches(*platform, *config, n, *old(self), *self));
            }
        }
    }

    /// Dynamic memory, if it is there.
    pub open spec fn dynamic(self) -> Option<MemView> {
        match self.devices@.last().device {
            Device::Mem(d) => if self.has_memory {
                Some(d@)
            } else {
                None
            },
            _ => None,
        }
    }

    /// What is mapped for the guest is what its devices see: its base memory, and
    /// in the range of dynamic memory what is plugged.
    pub open spec fn consistent(self) -> bool {
        in_step(calls_of(self.vm), memory_of(self.view)) && base_part(
            self.dynamic(),
            memory_of(self.view),
        ) == pieces(self.base@).to_set()
    }

    /// Nothing is plugged, and the range of dynamic memory is free in the layout.
    pub open spec fn unplugged(self) -> bool {
        self.dynamic() matches Some(d) ==> d.blocks == Set::<u64>::empty() && d.exact(
            ram_ranges(self.layout.ram@),
        )
    }

    /// Asks the platform for a layout, and assembles the devices in it.
    pub fn new<P: Platform<Vm = VM>>(
        config: &VmConfig,
        platform: &P,
        disks: Disks<BS>,
        net: Option<ND>,
        memory: Option<VirtioMem>,
        control: &Option<MemoryControl>,
    ) -> (r: Result<Self, Error>)
        requires
            memory is Some <==> control is Some,
            memory matches Some(m) ==> m.sound() && m@.agrees(control->Some_0@) && m@.blocks
                == Set::<u64>::empty() && m@.retained.len() == 0,
        ensures
            r matches Ok(rt) ==> {
                &&& rt.wf()
                &&& rt.on_course()
                &&& rt.unplugged()
                &&& rt.stage == Stage::Allocate
                &&& rt.has_memory == (memory is Some)
                &&& rt.has_memory ==> memory_free(
                    rt.devices@,
                    control->Some_0@,
                    ram_ranges(rt.layout.ram@),
                )
                &&& exists|needs: DeviceRequirements|
                    needs_rel(disks.list(), net is Some, view_of(memory), needs)
                        && platform.layout_rel(*config, needs, Ok(rt.layout))
                        && #[trigger] assembly_error(*config, rt.layout, needs, disks.list(), net)
                        is None
                &&& assembled(
                    disks.list(),
                    net,
                    match memory {
                        Some(m) => Some(
                            MemView {
                                start: rt.layout.hotplug->Some_0.address,
                                requested: (control->Some_0@.requested_size_mib * MIB) as u64,
                                ..m@
                            },
                        ),
                        None => None,
                    },
                    rt.devices@,
                )
            },
            r matches Err(e) ==> exists|
                needs: DeviceRequirements,
                answer: Result<MachineLayout, PlatformError>,
            | #[trigger]
                platform.layout_rel(*config, needs, answer) && needs_rel(
                    disks.list(),
                    net is Some,
                    view_of(memory),
                    needs,
                ) && match answer {
                    Err(refusal) => e == Error::Platform(refusal),
                    Ok(layout) => Some(e) == assembly_error(
                        *config,
                        layout,
                        needs,
                        disks.list(),
                        net,
                    ),
                },
    {
        let needs: DeviceRequirements = requirements(&disks, &net, &memory);
        let answer: Result<MachineLayout, PlatformError> = platform.layout(config, &needs);
        assert(platform.layout_rel(*config, needs, answer));
        let layout: MachineLayout = match answer {
            Err(e) => {
                return Err(Error::Platform(e));
            },
            Ok(layout) => layout,
        };
        let ghost chosen = layout;
        let ghost list = disks.list();
        let ghost backend = net;
        let r: Result<Self, Error> = Self::assemble(
            config,
            layout,
            &needs,
            disks,
            net,
            memory,
            control,
        );
        proof {
            let a = assembly_error::<BS, ND>(*config, chosen, needs, list, backend);
            assert(r is Ok ==> a is None);
            assert(platform.layout_rel(*config, needs, Ok(chosen)));
        }
        r
    }
}

/// `n` steps of startup lead from `s0` to `s1`.
pub open spec fn reaches<P: Platform, BS: BlockStorage, ND: NetDevice>(
    platform: P,
    config: VmConfig,
    n: nat,
    s0: Runtime<P::Vm, BS, ND>,
    s1: Runtime<P::Vm, BS, ND>,
) -> bool
    decreases n,
{
    if n == 0 {
        s1 == s0
    } else {
        exists|s: Runtime<P::Vm, BS, ND>|
            {
                &&& #[trigger] through(s)
                &&& reaches(platform, config, (n - 1) as nat, s0, s)
                &&& advance_rel(platform, config, s, s1, Ok(true))
            }
    }
}

/// Once base memory is mapped, what is mapped for the guest is what its devices
/// and its loader see.
pub proof fn startup_leaves_memory_consistent<VM: VirtualMachine, BS: BlockStorage, ND: NetDevice>(
    s: Runtime<VM, BS, ND>,
)
    requires
        s.wf(),
        s.on_course(),
        s.unplugged(),
        s.stage == Stage::Prepare || s.stage == Stage::Start || s.stage == Stage::Ready,
    ensures
        s.consistent(),
{
    let all = pieces(s.base@);
    let memory = memory_of(s.view);
    let none = Set::<Piece>::empty();
    let maps = granted(all, true);
    assert(all.take(all.len() as int) =~= all);
    lemma_granted(none, all, true);
    lemma_allocations(s.base@);
    assert forall|p: Piece| standing(none, maps).contains(p) == seen(memory).contains(p) by {
        if all.contains(p) {
            let i = choose|i: int| 0 <= i < all.len() && all[i] == p;
            assert(p == s.base@[i].piece());
            assert(ranges(s.base@)[i] == p.range);
            assert(memory.regions.contains(p.range));
            assert(memory.backings[s.base@[i].range().0] == p.allocation);
            assert(memory.regions[i].0 == p.range.0);
        }
        if seen(memory).contains(p) {
            let i = choose|i: int| 0 <= i < memory.regions.len() && memory.regions[i] == p.range;
            assert(ranges(s.base@)[i] == s.base@[i].range());
            assert(memory.backings[s.base@[i].range().0] == s.base@[i].allocation());
            assert(all[i] == p);
        }
    }
    assert(standing(none, maps) =~= seen(memory));
    assert(seen(memory) =~= all.to_set());
    if let Some(d) = s.dynamic() {
        assert forall|p: Piece| seen(memory).contains(p) implies !in_window(d, p.range.0) by {
            let i = choose|i: int| 0 <= i < memory.regions.len() && memory.regions[i] == p.range;
            assert(0 < memory.regions[i].1);
            assert(!d.blocks.contains(memory.regions[i].0));
        }
        assert(outside(d, memory) =~= seen(memory));
    }
    let prepared = VmCall::Prepared {
        memory: base_memory(s.base@),
        layout: s.layout,
        result: Ok(()),
    };
    lemma_silent(none, maps, prepared);
    lemma_silent(none, maps.push(prepared), VmCall::Started { result: Ok(()) });
}

/// Dynamic memory that was free in the layout agrees with its control state once
/// base memory is allocated.
pub proof fn memory_agrees_from_the_start<VM: VirtualMachine, BS: BlockStorage, ND: NetDevice>(
    s: Runtime<VM, BS, ND>,
    status: MemoryStatus,
)
    requires
        s.wf(),
        s.on_course(),
        s.stage != Stage::Allocate,
        s.has_memory,
        memory_free(s.devices@, status, ram_ranges(s.layout.ram@)),
    ensures
        s.memory_agrees(Some(status)),
{
}

/// A device as plain values, if it is there.
pub open spec fn view_of(memory: Option<VirtioMem>) -> Option<MemView> {
    match memory {
        Some(m) => Some(m@),
        None => None,
    }
}

proof fn lemma_on_course<P: Platform, BS: BlockStorage, ND: NetDevice>(
    platform: P,
    config: VmConfig,
    s0: Runtime<P::Vm, BS, ND>,
    s1: Runtime<P::Vm, BS, ND>,
)
    requires
        s0.wf(),
        s0.on_course(),
        s1.wf(),
        advance_rel(platform, config, s0, s1, Ok(true)),
    ensures
        s1.on_course(),
        steps_left(s1) < steps_left(s0),
{
    let regions = ram_ranges(s0.layout.ram@);
    assert(regions.len() == s0.layout.ram@.len());
    match s0.stage {
        Stage::Allocate => {},
        Stage::Create => {
            assert(granted(pieces(s0.base@).take(0), true) =~= Seq::empty());
            assert(ranges(s0.base@).len() == s0.base@.len());
        },
        Stage::MapBase => {
            assert(ranges(s0.base@).len() == s0.base@.len());
            let k = s0.mapped as int;
            let a = choose|a: Result<(), MemoryError>|
                #[trigger] through(a) && calls_of(s1.vm) == calls_of(s0.vm).push(
                    VmCall::Mapped { piece: s0.base@[k].piece(), result: a },
                ) && a is Ok;
            assert(a->Ok_0 == ());
            let all = pieces(s0.base@);
            assert(all[k] == s0.base@[k].piece());
            assert(granted(all.take(k + 1), true) =~= granted(all.take(k), true).push(
                VmCall::Mapped { piece: all[k], result: a },
            ));
        },
        Stage::Prepare => {
            let a = choose|a: Result<(), PlatformError>|
                #[trigger] through(a) && calls_of(s1.vm) == calls_of(s0.vm).push(
                    VmCall::Prepared {
                        memory: memory_of(s0.view),
                        layout: s0.layout,
                        result: a,
                    },
                ) && a is Ok;
            assert(a->Ok_0 == ());
        },
        Stage::Start => {
            let a = choose|a: Result<(), PlatformError>|
                #[trigger] through(a) && calls_of(s1.vm) == calls_of(s0.vm).push(
                    VmCall::Started { result: a },
                ) && a is Ok;
            assert(a->Ok_0 == ());
        },
        Stage::Ready => {},
    }
}

} // verus!

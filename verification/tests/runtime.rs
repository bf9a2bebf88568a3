//! A platform of the tests' own under the whole runtime.
use std::cell::RefCell;
use std::collections::VecDeque;
use std::rc::Rc;
use std::sync::{Arc, Weak};
use vm_memory::{Bytes, GuestAddress, GuestRegionCollection, GuestRegionMmap};
use w_vmm::control::{Directive, VmControl, VmLifecycle};
use w_vmm::disks::Disks;
use w_vmm::error::{
    ControlError, DeviceError, Error, Failure, MemoryError, NetError, PlatformError,
    RuntimeError, StorageError,
};
use w_vmm::guest::{Guest, Region, Segment};
use w_vmm::memory::{Mapper, MemoryControl, MemoryLifecycle, VirtioMem};
use w_vmm::net::NetDevice;
use w_vmm::platform::{
    DeviceKind, DeviceRequirements, Event, IoAccess, IoRegion, IoSpace, MachineLayout, MemoryRange,
    Platform, VirtualMachine, VmConfig,
};
use w_vmm::runtime::{Cleanup, Closing, Progress, Runtime, Stage};
use w_vmm::serial::{IoFault, SerialIo, Uart};
use w_vmm::storage::BlockStorage;

type Control = Rc<RefCell<VmControl<()>>>;

/// The thread that runs the VM, and any other.
const OWNER: u64 = 1;
const OTHER: u64 = 2;

fn failed(message: &str) -> Failure {
    Failure { chain: vec![message.to_owned()] }
}

/// A VM with its devices, run on one thread.
struct Vmm<BS: BlockStorage, SI: SerialIo> {
    config: VmConfig,
    control: Control,
    devices: Option<(Disks<BS>, Option<VirtioMem>, SI)>,
}

impl<BS: BlockStorage, SI: SerialIo> Vmm<BS, SI> {
    fn new(config: VmConfig, disks: Disks<BS>, memory: Option<VirtioMem>, serial: SI) -> Self {
        let control = VmControl::new(memory.as_ref().map(|m| m.control()));
        Vmm {
            config,
            control: Rc::new(RefCell::new(control)),
            devices: Some((disks, memory, serial)),
        }
    }

    fn control(&self) -> Control {
        self.control.clone()
    }

    fn run_with_platform<P: Platform>(mut self, platform: P) -> Result<(), Error> {
        self.control.borrow_mut().begin(OWNER).map_err(Error::Control)?;
        let (disks, memory, serial) = self.devices.take().unwrap();
        let result = run(&self.config, &self.control, platform, disks, memory, serial);
        let message = result.as_ref().err().map(|e| format!("{e:?}"));
        self.control.borrow_mut().finish(message);
        result
    }
}

impl<BS: BlockStorage, SI: SerialIo> Drop for Vmm<BS, SI> {
    fn drop(&mut self) {
        drop(self.devices.take());
        self.control.borrow_mut().dropped(None);
    }
}

fn run<P: Platform, BS: BlockStorage, SI: SerialIo>(
    config: &VmConfig,
    control: &Control,
    platform: P,
    disks: Disks<BS>,
    memory: Option<VirtioMem>,
    serial: SI,
) -> Result<(), Error> {
    let held = control.borrow().lend();
    let mut runtime: Runtime<P::Vm, BS, NoNet> =
        Runtime::new(config, &platform, disks, None, memory, &held)?;
    let result = runtime.init(config, &platform, || control.borrow().stopping()).and_then(|ready| {
        if !ready {
            return Ok(());
        }
        with_memory(control, |held| runtime.start_memory(held));
        control.borrow_mut().running();
        turns(&mut runtime, control, serial)
    });
    control.borrow_mut().cleaning();
    let cleanup = with_memory(control, |held| runtime.cleanup(held));
    assert_eq!(runtime.closing, Closing::Released);
    assert!(runtime.vm.is_none() && runtime.view.is_none() && runtime.base.is_empty());
    let message = cleanup.result.as_ref().err().map(|e| format!("{e:?}"));
    control.borrow_mut().cleanup_result(message);
    result.and(cleanup.result)
}

/// Lends the memory state to `work`; callbacks look at the control state
/// themselves meanwhile.
fn with_memory<T>(
    control: &Control,
    work: impl FnOnce(&mut Option<MemoryControl>) -> T,
) -> T {
    let mut held = control.borrow().lend();
    let result = work(&mut held);
    control.borrow_mut().settle(held);
    result
}

fn turns<VM: VirtualMachine, BS: BlockStorage, SI: SerialIo>(
    runtime: &mut Runtime<VM, BS, NoNet>,
    control: &Control,
    mut serial: SI,
) -> Result<(), Error> {
    let mut uart = Uart::new();
    loop {
        let next = control.borrow_mut().next();
        match next {
            Directive::Stop => return Ok(()),
            Directive::Serve(request) => {
                let paused = control.borrow().status().lifecycle == VmLifecycle::Paused;
                let result = runtime.serve(request.operation, paused);
                control.borrow_mut().complete(request.operation, result.is_ok());
                result?;
            }
            Directive::Sleep => panic!("nobody could wake the VM"),
            Directive::Work => {
                let done = with_memory(control, |held| {
                    runtime.work(&mut uart, &mut serial, held)
                });
                if done? == Progress::Stop {
                    return Ok(());
                }
            }
        }
    }
}

struct NoNet;

impl NetDevice for NoNet {
    const MTU: u16 = 1500;

    fn mac_address(&self) -> [u8; 6] {
        [2, 0, 0, 0, 0, 1]
    }

    fn max_frame_len(&self) -> usize {
        1514
    }

    fn send(&mut self, _: &[Segment], _: &mut Guest) -> Result<bool, NetError> {
        Ok(true)
    }

    fn resend(&mut self, _: &[u8]) -> Result<bool, NetError> {
        Ok(true)
    }

    fn recv(&mut self, _: &[Segment], _: &mut Guest) -> Result<Option<usize>, NetError> {
        Ok(None)
    }

    fn fetch(&mut self, _: usize) -> Result<Option<Vec<u8>>, NetError> {
        Ok(None)
    }
}

#[derive(Clone, Copy, Debug, PartialEq)]
enum Fault {
    Nothing,
    Overlap,
    Overflow,
    Capacity,
    DeviceCount,
    Hotplug,
    Create,
    Prepare,
    Start,
    Pause,
    BaseMap,
    Mapping,
    Rollback,
    Poll,
    Resume,
    Flush,
    Unmap,
}

#[derive(Default)]
struct State {
    allocations: Vec<(u64, Weak<GuestRegionMmap<()>>)>,
    log: Vec<String>,
    calls: usize,
    replies: Vec<u64>,
    output: Vec<u8>,
    irqs: Vec<(u32, bool)>,
}

type Shared = Rc<RefCell<State>>;

struct TestPlatform {
    state: Shared,
    fault: Fault,
    port: bool,
    base: u64,
}

impl Platform for TestPlatform {
    type Vm = TestVm;

    fn layout(&self, _: &VmConfig, needs: &DeviceRequirements) -> Result<MachineLayout, PlatformError> {
        assert!(matches!(
            &needs.devices[..],
            [DeviceKind::Block(a), DeviceKind::Block(b), DeviceKind::Memory] if a == "a" && b == "z"
        ));
        let h = needs.hotplug.as_ref().unwrap();
        assert_eq!((h.capacity, h.alignment), (128 << 20, 128 << 20));
        let mut l = MachineLayout {
            ram: vec![
                MemoryRange { address: self.base, size: 1 << 20 },
                MemoryRange { address: self.base + (2 << 20), size: 1 << 20 },
            ],
            uart: IoRegion {
                space: if self.port { IoSpace::Port } else { IoSpace::Mmio },
                address: 0x3f8,
                size: 8,
                irq: 4,
            },
            virtio: (0..3)
                .map(|i| IoRegion {
                    space: IoSpace::Mmio,
                    address: 0x10000 + i * 0x2000,
                    size: 0x1000,
                    irq: 10 + i as u32,
                })
                .collect(),
            hotplug: Some(MemoryRange { address: 0x8000_0000, size: h.capacity }),
        };
        match self.fault {
            Fault::Overlap => l.virtio[0].address = self.base,
            Fault::Overflow => l.ram[0].address = u64::MAX - 16,
            Fault::Capacity => l.ram.pop().map(|_| ()).unwrap(),
            Fault::DeviceCount => {
                l.virtio.pop();
            }
            Fault::Hotplug => l.hotplug.as_mut().unwrap().address += 1,
            _ => (),
        }
        Ok(l)
    }

    fn create(&self, _: &VmConfig) -> Result<TestVm, PlatformError> {
        if self.fault == Fault::Create {
            return Err(PlatformError::Backend(failed("create failure")));
        }
        self.state.borrow_mut().log.push("create".into());
        Ok(TestVm {
            state: self.state.clone(),
            fault: self.fault,
            events: VecDeque::new(),
            memory: None,
            stopped: false,
            paused: false,
            base: self.base,
        })
    }
}

struct TestVm {
    state: Shared,
    fault: Fault,
    events: VecDeque<Event<usize>>,
    memory: Option<GuestRegionCollection<GuestRegionMmap<()>>>,
    stopped: bool,
    paused: bool,
    base: u64,
}

impl Mapper for TestVm {
    fn map(&mut self, r: &Region) -> Result<(), MemoryError> {
        let mut s = self.state.borrow_mut();
        s.allocations.push((r.start(), Arc::downgrade(r.backing())));
        s.calls += 1;
        s.log.push(format!("map:{:x}", r.start()));
        if r.start() >= 0x8000_0000 {
            assert!(self.paused);
        }
        if self.fault == Fault::BaseMap && s.calls == 2 {
            return Err(MemoryError::Backend(failed("base mapping failure")));
        }
        if matches!(self.fault, Fault::Mapping | Fault::Rollback) && s.calls == 4 {
            return Err(MemoryError::Backend(failed("dynamic mapping failure")));
        }
        Ok(())
    }

    fn unmap(&mut self, r: &Region) -> Result<(), MemoryError> {
        self.state.borrow_mut().log.push(format!("unmap:{:x}", r.start()));
        assert!(self.stopped || self.paused);
        if self.fault == Fault::Unmap {
            return Err(MemoryError::Backend(failed("unmap failure")));
        }
        if self.fault == Fault::Rollback && !self.stopped {
            return Err(MemoryError::Backend(failed("rollback failure")));
        }
        Ok(())
    }
}

impl VirtualMachine for TestVm {
    type Completion = usize;

    fn prepare(&mut self, memory: &mut Guest, layout: &MachineLayout) -> Result<(), PlatformError> {
        self.state.borrow_mut().log.push("prepare".into());
        self.memory = Some(memory.backing().clone());
        if self.fault == Fault::Prepare {
            return Err(PlatformError::Backend(failed("prepare failure")));
        }
        // Populate a real split virtqueue with a two-block plug request.
        let b = self.base;
        let descriptor = |address: u64, len: u32, flags: u16, next: u16| {
            let mut d = [0u8; 16];
            d[..8].copy_from_slice(&address.to_le_bytes());
            d[8..12].copy_from_slice(&len.to_le_bytes());
            d[12..14].copy_from_slice(&flags.to_le_bytes());
            d[14..].copy_from_slice(&next.to_le_bytes());
            d
        };
        assert!(memory.poke(b + 0x1000, &descriptor(b + 0x8000, 24, 1, 1)));
        assert!(memory.poke(b + 0x1010, &descriptor(b + 0x9000, 10, 2, 0)));
        let mut req = [0u8; 24];
        req[8..16].copy_from_slice(&layout.hotplug.unwrap().address.to_le_bytes());
        req[16..18].copy_from_slice(&2u16.to_le_bytes());
        assert!(memory.poke(b + 0x8000, &req));
        assert!(memory.poke(b + 0x2002, &1u16.to_le_bytes()));
        let mut io = |space, address, width, write, value| {
            let completion = self.events.len();
            self.events.push_back(Event::Io(IoAccess {
                space,
                address,
                width,
                write,
                value,
                completion,
            }));
        };
        io(layout.uart.space, layout.uart.address, 1, true, b'X' as u64);
        io(layout.uart.space, layout.uart.address + 5, 1, false, 0);
        io(IoSpace::Mmio, layout.virtio[0].address, 4, false, 0);
        for (offset, value) in [
            (0x70, 1),
            (0x70, 3),
            (0x24, 1),
            (0x20, 1),
            (0x24, 0),
            (0x20, 2),
            (0x70, 11),
            (0x30, 0),
            (0x38, 8),
            (0x80, b + 0x1000),
            (0x90, b + 0x2000),
            (0xa0, b + 0x3000),
            (0x44, 1),
            (0x70, 15),
        ] {
            io(IoSpace::Mmio, layout.virtio[2].address + offset, 4, true, value);
        }
        self.events.push_back(Event::Shutdown);
        Ok(())
    }

    fn start(&mut self) -> Result<(), PlatformError> {
        self.state.borrow_mut().log.push("start".into());
        if self.fault == Fault::Start {
            return Err(PlatformError::Backend(failed("start failure")));
        }
        Ok(())
    }

    fn poll_event(&mut self, _: u64) -> Result<Option<Event<usize>>, PlatformError> {
        if self.fault == Fault::Poll {
            return Err(PlatformError::Backend(failed("poll failure")));
        }
        Ok(self.events.pop_front())
    }

    fn complete_io(&mut self, completion: usize, value: u64) -> Result<(), PlatformError> {
        let mut s = self.state.borrow_mut();
        assert_eq!(completion, s.replies.len());
        s.replies.push(value);
        Ok(())
    }

    fn set_irq(&mut self, irq: u32, level: bool) -> Result<(), PlatformError> {
        self.state.borrow_mut().irqs.push((irq, level));
        Ok(())
    }

    fn pause(&mut self) -> Result<(), PlatformError> {
        self.state.borrow_mut().log.push("pause".into());
        if self.fault == Fault::Pause {
            return Err(PlatformError::Backend(failed("pause failure")));
        }
        self.paused = true;
        Ok(())
    }

    fn resume(&mut self) -> Result<(), PlatformError> {
        self.state.borrow_mut().log.push("resume".into());
        if self.fault == Fault::Resume {
            return Err(PlatformError::Backend(failed("resume failure")));
        }
        self.paused = false;
        Ok(())
    }

    fn stop(&mut self) {
        if !self.stopped {
            self.state.borrow_mut().log.push("stop".into());
            self.stopped = true;
        }
    }
}

impl Drop for TestVm {
    fn drop(&mut self) {
        self.stop();
        // Base RAM must still be alive and readable during VM destruction.
        if let Some(m) = &self.memory {
            let mut byte = [1];
            m.read_slice(&mut byte, GuestAddress(self.base)).unwrap();
            assert_eq!(byte, [0]);
        }
        for (address, weak) in &self.state.borrow().allocations {
            if *address < 0x8000_0000
                || matches!(
                    self.fault,
                    Fault::Nothing | Fault::Rollback | Fault::Resume | Fault::Flush | Fault::Unmap
                )
            {
                assert!(weak.upgrade().is_some(), "allocation released before VM destruction");
            }
        }
        self.state.borrow_mut().log.push("destroy".into());
    }
}

struct Disk(Shared, bool);

impl BlockStorage for Disk {
    fn size(&self) -> u64 {
        512
    }

    fn read_only(&self) -> bool {
        false
    }

    fn read(&mut self, _: u64, _: &[Segment], _: &mut Guest) -> Result<(), StorageError> {
        Ok(())
    }

    fn write(&mut self, _: u64, _: &[Segment], _: &mut Guest) -> Result<(), StorageError> {
        Ok(())
    }

    fn flush(&mut self) -> Result<(), StorageError> {
        self.0.borrow_mut().log.push("flush".into());
        if self.1 {
            return Err(StorageError::Backend(failed("flush failure")));
        }
        Ok(())
    }
}

impl Drop for Disk {
    fn drop(&mut self) {
        self.0.borrow_mut().log.push("disk-drop".into());
    }
}

struct Serial(Shared);

impl SerialIo for Serial {
    fn recv(&mut self, _: &mut Vec<u8>) -> Result<usize, IoFault> {
        Ok(0)
    }

    fn write_all(&mut self, b: &[u8]) -> Result<(), IoFault> {
        self.0.borrow_mut().output.extend(b);
        Ok(())
    }

    fn flush(&mut self) -> Result<(), IoFault> {
        Ok(())
    }

    fn should_stop(&mut self) -> bool {
        false
    }
}

fn check_run(fault: Fault, port: bool, base: u64) -> Shared {
    let state = Shared::default();
    let memory = VirtioMem::new(128, 2).unwrap();
    let mut disks = Disks::new();
    disks.insert("z".to_owned(), Disk(state.clone(), fault == Fault::Flush));
    disks.insert("a".to_owned(), Disk(state.clone(), fault == Fault::Flush));
    let vm = Vmm::new(
        VmConfig { memory_mib: 2, vcpu_count: 1 },
        disks,
        Some(memory),
        Serial(state.clone()),
    );
    let control = vm.control();
    control.borrow_mut().set_requested_mib(128).unwrap();
    let result = vm.run_with_platform(TestPlatform { state: state.clone(), fault, port, base });
    assert_eq!(result.is_ok(), matches!(fault, Fault::Nothing | Fault::Mapping), "{fault:?}: {result:?}");
    match (fault, result.as_ref().err()) {
        (Fault::Nothing | Fault::Mapping, None) => (),
        (Fault::Overlap, Some(Error::Platform(PlatformError::OverlappingRegions { .. }))) => (),
        (Fault::Overflow, Some(Error::Platform(PlatformError::RegionOverflow { .. }))) => (),
        (Fault::Capacity, Some(Error::Platform(PlatformError::RamCapacityMismatch { .. }))) => (),
        (Fault::DeviceCount, Some(Error::Platform(PlatformError::DeviceCountMismatch { .. }))) => {}
        (
            Fault::Hotplug,
            Some(Error::Platform(PlatformError::InvalidHotplugCapacityAlignment { .. })),
        ) => {}
        (
            Fault::Create
            | Fault::Prepare
            | Fault::Start
            | Fault::Pause
            | Fault::Poll
            | Fault::Resume,
            Some(Error::Platform(PlatformError::Backend(_))),
        ) => (),
        (Fault::BaseMap | Fault::Unmap, Some(Error::Memory(MemoryError::Backend(_)))) => (),
        (
            Fault::Rollback,
            Some(Error::Device(DeviceError::Memory(MemoryError::RollbackFailed { source, rollback }))),
        ) => {
            assert!(matches!(source.as_ref(), MemoryError::Backend(_)));
            assert!(matches!(rollback.as_ref(), MemoryError::Backend(_)));
        }
        (Fault::Flush, Some(Error::Device(DeviceError::Storage(StorageError::Backend(_))))) => (),
        _ => panic!("unexpected error for {fault:?}: {result:?}"),
    }
    assert_eq!(control.borrow().memory_status().unwrap().lifecycle, MemoryLifecycle::Stopped);
    assert!(!control.borrow().memory_status().unwrap().driver_ready);
    assert!(control.borrow_mut().set_requested_mib(0).is_err());
    let s = state.borrow();
    assert!(
        s.allocations.iter().all(|(_, w)| w.upgrade().is_none()),
        "allocation leaked after VM destruction"
    );
    if let Some(stop) = s.log.iter().position(|s| s == "stop") {
        let flush = s.log.iter().position(|s| s == "flush").unwrap();
        let destroy = s.log.iter().position(|s| s == "destroy").unwrap();
        assert!(stop < flush && flush < destroy);
        assert_eq!(s.log.iter().filter(|s| *s == "flush").count(), 2);
        for (i, e) in s.log.iter().enumerate() {
            if e.starts_with("unmap:") && i > stop {
                assert!(i > flush && i < destroy);
            }
            if e == "disk-drop" {
                assert!(i > destroy);
            }
        }
    }
    if fault == Fault::Nothing {
        // What was mapped is unmapped before the VM goes, and nothing twice.
        let mut mapped = std::collections::BTreeSet::new();
        for e in s.log.iter().take_while(|e| *e != "destroy") {
            if let Some(at) = e.strip_prefix("map:") {
                assert!(mapped.insert(at));
            } else if let Some(at) = e.strip_prefix("unmap:") {
                assert!(mapped.remove(at));
            }
        }
        assert!(mapped.is_empty());
    }
    if matches!(fault, Fault::Nothing | Fault::Mapping | Fault::Rollback | Fault::Resume) {
        assert!(s.log.contains(&"map:80000000".into()));
        assert!(s.log.contains(&"map:80200000".into()));
        assert_eq!(s.output, b"X");
        assert_eq!(s.replies[2], 0x74726976);
        assert_eq!(s.log.contains(&"resume".into()), fault != Fault::Rollback);
        if fault == Fault::Nothing {
            assert!(s.irqs.contains(&(12, true)));
            assert_eq!(control.borrow().memory_status().unwrap().plugged_size_mib, 4);
        }
    }
    if fault == Fault::Pause {
        assert!(!s.log.contains(&"map:80000000".into()));
    }
    drop(s);
    state
}

#[test]
fn external_platform_mmio_and_port_io_multiple_ram_ranges() {
    for port in [false, true] {
        for base in [0x100000, 0x10000000] {
            check_run(Fault::Nothing, port, base);
        }
    }
}

#[test]
fn errors_and_transaction_rollback_cleanup() {
    for fault in [
        Fault::Overlap,
        Fault::Overflow,
        Fault::Capacity,
        Fault::DeviceCount,
        Fault::Hotplug,
        Fault::Create,
        Fault::Prepare,
        Fault::Start,
        Fault::Pause,
        Fault::BaseMap,
        Fault::Mapping,
        Fault::Rollback,
        Fault::Poll,
        Fault::Resume,
        Fault::Flush,
        Fault::Unmap,
    ] {
        check_run(fault, false, 0x100000);
    }
}

#[test]
fn dropping_unused_memory_stops_control() {
    let m = VirtioMem::new(128, 2).unwrap();
    let disks: Disks<Disk> = Disks::new();
    let vm = Vmm::new(VmConfig::default(), disks, Some(m), Serial(Shared::default()));
    let c = vm.control();
    drop(vm);
    assert_eq!(c.borrow().memory_status().unwrap().lifecycle, MemoryLifecycle::Stopped);
}

/// A platform whose guest only writes to its UART.
struct Machine {
    state: Shared,
    prepare_fails: bool,
    control: Control,
}

impl Platform for Machine {
    type Vm = Self;

    fn layout(&self, _: &VmConfig, needs: &DeviceRequirements) -> Result<MachineLayout, PlatformError> {
        if let Some(hotplug) = &needs.hotplug {
            assert_eq!(hotplug.alignment, hotplug.alignment.max(128 << 20));
        }
        Ok(MachineLayout {
            ram: vec![MemoryRange { address: 0x100000, size: 1 << 20 }],
            uart: IoRegion { space: IoSpace::Mmio, address: 0x1000, size: 8, irq: 1 },
            virtio: needs
                .devices
                .iter()
                .enumerate()
                .map(|(i, _)| IoRegion {
                    space: IoSpace::Mmio,
                    address: 0x10000 + i as u64 * 0x1000,
                    size: 0x1000,
                    irq: 2 + i as u32,
                })
                .collect(),
            hotplug: needs
                .hotplug
                .as_ref()
                .map(|m| MemoryRange { address: 0x80000000, size: m.capacity }),
        })
    }

    fn create(&self, _: &VmConfig) -> Result<Self, PlatformError> {
        Ok(Self {
            state: self.state.clone(),
            prepare_fails: self.prepare_fails,
            control: self.control.clone(),
        })
    }
}

impl Mapper for Machine {
    fn map(&mut self, _: &Region) -> Result<(), MemoryError> {
        Ok(())
    }

    fn unmap(&mut self, _: &Region) -> Result<(), MemoryError> {
        self.state.borrow_mut().log.push("unmap".into());
        Ok(())
    }
}

impl VirtualMachine for Machine {
    type Completion = ();

    fn prepare(&mut self, _: &mut Guest, _: &MachineLayout) -> Result<(), PlatformError> {
        if self.prepare_fails {
            return Err(PlatformError::Backend(failed("prepare failed")));
        }
        Ok(())
    }

    fn start(&mut self) -> Result<(), PlatformError> {
        Ok(())
    }

    fn poll_event(&mut self, _: u64) -> Result<Option<Event<()>>, PlatformError> {
        // A callback must fail immediately, never wait on its own runtime.
        let mut control = self.control.borrow_mut();
        assert!(matches!(control.pause((), OWNER), Err(ControlError::OwnerThread)));
        assert!(control.resume((), OWNER).is_err());
        assert!(control.stop(OWNER).is_err());
        let mut state = self.state.borrow_mut();
        state.calls += 1;
        if state.calls == 3 {
            control.pause((), OTHER).unwrap();
            control.resume((), OTHER).unwrap();
        }
        if state.calls == 5 {
            control.stop(OTHER).unwrap();
        }
        Ok(Some(Event::Io(IoAccess {
            space: IoSpace::Mmio,
            address: if state.calls == 100 { 0 } else { 0x1000 },
            width: 1,
            write: true,
            value: b'x' as u64,
            completion: (),
        })))
    }

    fn complete_io(&mut self, _: (), _: u64) -> Result<(), PlatformError> {
        Ok(())
    }

    fn set_irq(&mut self, _: u32, _: bool) -> Result<(), PlatformError> {
        Ok(())
    }

    fn pause(&mut self) -> Result<(), PlatformError> {
        self.state.borrow_mut().log.push("pause".into());
        Ok(())
    }

    fn resume(&mut self) -> Result<(), PlatformError> {
        self.state.borrow_mut().log.push("resume".into());
        Ok(())
    }

    fn stop(&mut self) {
        self.state.borrow_mut().log.push("stop".into());
    }
}

impl Drop for Machine {
    fn drop(&mut self) {
        self.state.borrow_mut().log.push("destroy".into());
    }
}

fn new_vm(state: &Shared, memory: Option<VirtioMem>) -> Vmm<Disk, Serial> {
    let mut disks = Disks::new();
    disks.insert("disk".to_owned(), Disk(state.clone(), false));
    Vmm::new(
        VmConfig { memory_mib: 1, vcpu_count: 4 },
        disks,
        memory,
        Serial(state.clone()),
    )
}

fn run_machine(vm: Vmm<Disk, Serial>, state: &Shared, prepare_fails: bool) -> Result<(), Error> {
    let platform = Machine { state: state.clone(), prepare_fails, control: vm.control() };
    vm.run_with_platform(platform)
}

#[test]
fn startup_failure_and_cancelled_run() {
    for block in [1, 2, 4, 256] {
        for cancel in [false, true] {
            let state = Shared::default();
            let vm = new_vm(&state, Some(VirtioMem::new(128.max(block), block).unwrap()));
            let control = vm.control();
            if cancel {
                control.borrow_mut().stop(OTHER).unwrap();
            }
            assert!(run_machine(vm, &state, true).is_err());
            assert_eq!(control.borrow().status().lifecycle, VmLifecycle::Stopped);
            assert_eq!(control.borrow().status().final_error.is_some(), !cancel);
            control.borrow_mut().stop(OTHER).unwrap();
            assert!(matches!(control.borrow().stopped(), Some(Ok(()))));
            assert_eq!(
                control.borrow().memory_status().unwrap().lifecycle,
                MemoryLifecycle::Stopped
            );
            assert!(control.borrow_mut().set_requested_mib(0).is_err());
            assert!(state.borrow().log.contains(&"disk-drop".to_owned()));
        }
    }
}

#[test]
fn startup_failure_stops_memory_device() {
    let state = Shared::default();
    let mut disks: Disks<Disk> = Disks::new();
    disks.insert("disk".to_owned(), Disk(state.clone(), false));
    let vm = Vmm::new(
        VmConfig { memory_mib: 0, vcpu_count: 1 },
        disks,
        Some(VirtioMem::new(128, 2).unwrap()),
        Serial(state.clone()),
    );
    let control = vm.control();
    assert!(run_machine(vm, &state, false).is_err());
    assert_eq!(control.borrow().memory_status().unwrap().lifecycle, MemoryLifecycle::Stopped);
    assert!(control.borrow_mut().set_requested_mib(2).is_err());
}

#[test]
fn memory_capability_targets_and_device_ownership() {
    for configured in [false, true] {
        for cancel in [false, true] {
            let state = Shared::default();
            let memory = if configured { Some(VirtioMem::new(256, 2).unwrap()) } else { None };
            let vm = new_vm(&state, memory);
            let c = vm.control();
            let other = c.clone();
            assert_eq!(c.borrow().supports_memory(), configured);
            if configured {
                assert_eq!(
                    c.borrow().memory_status().unwrap().lifecycle,
                    MemoryLifecycle::Created
                );
                assert!(!c.borrow().memory_status().unwrap().driver_ready);
                other.borrow_mut().set_requested_mib(6).unwrap();
                assert_eq!(c.borrow().memory_status().unwrap().requested_size_mib, 6);
                for invalid in [1, 384, u64::MAX] {
                    assert!(c.borrow_mut().set_requested_mib(invalid).is_err());
                }
                assert_eq!(c.borrow().memory_status().unwrap().requested_size_mib, 6);
            } else {
                assert!(matches!(
                    c.borrow().memory_status(),
                    Err(ControlError::MemoryNotConfigured)
                ));
                assert!(matches!(
                    c.borrow_mut().set_requested_mib(0),
                    Err(ControlError::MemoryNotConfigured)
                ));
            }
            if cancel {
                c.borrow_mut().stop(OTHER).unwrap();
                assert!(!state.borrow().log.contains(&"disk-drop".to_owned()));
                if configured {
                    assert_eq!(
                        c.borrow().memory_status().unwrap().lifecycle,
                        MemoryLifecycle::Stopped
                    );
                }
                assert!(c.borrow_mut().set_requested_mib(0).is_err());
            }
            drop(vm);
            assert!(state.borrow().log.contains(&"disk-drop".to_owned()));
            assert_eq!(c.borrow().status().lifecycle, VmLifecycle::Stopped);
            assert_eq!(c.borrow().supports_memory(), configured);
            assert!(other.borrow_mut().set_requested_mib(0).is_err());
            if configured {
                let status = other.borrow().memory_status().unwrap();
                assert_eq!(status.lifecycle, MemoryLifecycle::Stopped);
                assert_eq!(status.requested_size_mib, 6);
            }
        }
    }
}

#[test]
fn pause_resume_and_stop_run_in_order() {
    for configured in [false, true] {
        let state = Shared::default();
        let memory = if configured { Some(VirtioMem::new(128, 2).unwrap()) } else { None };
        let vm = new_vm(&state, memory);
        let control = vm.control();
        run_machine(vm, &state, false).unwrap();
        let s = state.borrow();
        assert_eq!(
            s.log,
            ["pause", "resume", "stop", "flush", "unmap", "destroy", "disk-drop", "destroy"]
        );
        assert_eq!(s.output, b"xxxxx");
        assert_eq!(control.borrow().status().lifecycle, VmLifecycle::Stopped);
        assert_eq!(control.borrow().status().final_error, None);
    }
}

#[test]
fn unmapped_accesses_end_the_vm() {
    let state = Shared::default();
    state.borrow_mut().calls = 99;
    let vm = new_vm(&state, None);
    assert!(matches!(
        run_machine(vm, &state, false),
        Err(Error::Runtime(RuntimeError::UnmappedIo { address: 0, width: 1 }))
    ));
}

#[test]
fn startup_stops_between_two_steps_and_cleanup_goes_in_order() {
    let state = Shared::default();
    let config = VmConfig { memory_mib: 1, vcpu_count: 1 };
    let control: Control = Rc::new(RefCell::new(VmControl::new(None)));
    let platform = Machine { state: state.clone(), prepare_fails: false, control };
    let mut disks = Disks::new();
    disks.insert("disk".to_owned(), Disk(state.clone(), false));
    let mut runtime: Runtime<Machine, Disk, NoNet> =
        Runtime::new(&config, &platform, disks, None, None, &None).unwrap();
    assert!(!runtime.init(&config, &platform, || true).unwrap());
    assert_eq!(runtime.stage, Stage::Allocate);
    let asked = std::cell::Cell::new(0);
    let fourth = || {
        asked.set(asked.get() + 1);
        asked.get() == 4
    };
    assert!(!runtime.init(&config, &platform, fourth).unwrap());
    assert_eq!(runtime.stage, Stage::Prepare);
    assert_eq!((runtime.base.len(), runtime.mapped), (1, 1));
    assert!(runtime.init(&config, &platform, || false).unwrap());
    assert_eq!(runtime.stage, Stage::Ready);
    let mut outcome = Cleanup { result: Ok(()), stuck: Vec::new() };
    let mut seen = Vec::new();
    while runtime.close(&mut None, &mut outcome) {
        seen.push((runtime.closing, state.borrow().log.last().cloned().unwrap_or_default()));
    }
    let expected = [
        (Closing::Stopped, "stop"),
        (Closing::Flushed, "flush"),
        (Closing::Unplugged, "flush"),
        (Closing::Unmapped, "unmap"),
        (Closing::Destroyed, "destroy"),
        (Closing::Released, "disk-drop"),
    ];
    assert_eq!(seen, expected.map(|(closing, event)| (closing, event.to_owned())));
    assert!(outcome.result.is_ok() && outcome.stuck.is_empty());
}

#[test]
fn a_stop_before_the_end_of_startup_needs_no_vm() {
    let state = Shared::default();
    let config = VmConfig { memory_mib: 1, vcpu_count: 1 };
    let control: Control = Rc::new(RefCell::new(VmControl::new(None)));
    let platform = Machine { state: state.clone(), prepare_fails: false, control };
    let mut runtime: Runtime<Machine, Disk, NoNet> =
        Runtime::new(&config, &platform, Disks::new(), None, None, &None).unwrap();
    assert!(!runtime.init(&config, &platform, || true).unwrap());
    assert!(runtime.cleanup(&mut None).result.is_ok());
    assert!(state.borrow().log.is_empty());
    assert_eq!(runtime.closing, Closing::Released);
}

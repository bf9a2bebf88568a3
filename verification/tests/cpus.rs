//! vCPU power states, exits and the machine around them.
use w_vmm::arm64::cpus::{next_event, Access, Event, Gate, Inbox, Power, Reply, Shared};
use w_vmm::arm64::exits::{
    argument_count, boot_registers, call_firmware, resolve, write_back, Abort, Exception, Exit,
    Firmware, Trap, Vcpu,
};
use w_vmm::arm64::worker::{Action, Input, Phase, Worker};
use w_vmm::arm64::hvf::{check, check_pages, check_redistributors, validate_irqs, Hvf, Limits};
use w_vmm::boot::{virtio_regions, RAM, UART, UART_IRQ, VIRTIO_BASE, VIRTIO_STRIDE};
use w_vmm::error::{BootError, PlatformError};
use w_vmm::platform::{
    DeviceKind, DeviceRequirements, Event as VmEvent, IoSpace, MemoryRange, MemoryRequirement,
    VmConfig,
};

#[test]
fn psci_states_and_affinity() {
    let mut s = Shared::new(4);
    assert_eq!(s.affinity(3, 0), 1);
    assert_eq!(s.on(3, 0x8000, 42), 0);
    assert_eq!(s.on(3, 0x8000, 0), -5);
    assert_eq!(s.affinity(3, 0), 2);
    s.power[3] = Power::On;
    assert_eq!(s.on(3, 0x8000, 0), -4);
    assert_eq!(s.affinity(3, 0), 0);
    s.power[3] = Power::Off;
    assert_eq!(s.on(3, 0x9000, 9), 0);
    assert_eq!(s.on(4, 0, 0), -2);
    assert_eq!(s.on(u64::MAX, 0, 0), -2);
    assert_eq!(s.on(0, 3, 0), -9);
    assert_eq!(s.affinity(4, 0), -2);
    assert_eq!(s.affinity(0, 4), -2);
    assert_eq!(s.affinity(0, 1), 0);
    assert_eq!(s.affinity(3, 1), 0);
    assert_eq!(s.affinity(0x100, 1), -2);
}

#[test]
fn pause_includes_offline_and_mmio_waiters_and_stop_cancels() {
    let mut s = Shared::new(4);
    s.running[0] = true;
    s.pause();
    assert!(s.quiescent().is_none());
    s.running[0] = false;
    assert!(matches!(s.quiescent(), Some(Ok(()))));
    assert!(s.paused);
    s.resume();
    assert!(!s.paused);
    s.stop();
    s.pause();
    assert!(matches!(
        s.quiescent(),
        Some(Err(PlatformError::VmStoppedDuringMemoryTransaction))
    ));
}

#[test]
fn mmio_reply_cannot_cross_pause_barrier() {
    for stop in [false, true] {
        let mut s = Shared::new(4);
        s.running[0] = true;
        s.wait_io(0);
        s.pause();
        assert!(matches!(s.quiescent(), Some(Ok(()))));
        assert_eq!(s.complete_io(0), Gate::Wait);
        assert!(!s.running[0]);
        if stop {
            s.stop();
        } else {
            s.resume();
        }
        assert_eq!(s.complete_io(0) == Gate::Run, !stop);
        assert_eq!(s.running[0], !stop);
    }
}

#[test]
fn partial_startup_is_cancellable() {
    let mut s = Shared::new(4);
    assert_eq!(s.gate(2), Gate::Wait);
    s.stop();
    for index in 0..4 {
        assert_eq!(s.gate(index), Gate::Stop);
        assert!(s.leave(index));
    }
}

#[test]
fn workers_start_run_and_leave() {
    let mut s = Shared::new(2);
    s.start(0x4000_0000, 0x5000_0000);
    assert_eq!(s.gate(0), Gate::Boot { entry: 0x4000_0000, context: 0x5000_0000 });
    s.enter(0);
    assert!(s.is_busy());
    assert_eq!(s.gate(1), Gate::Wait);
    assert_eq!(s.gate(0), Gate::Run);
    s.enter(0);
    s.pause();
    assert_eq!(s.gate(0), Gate::Wait);
    assert!(!s.is_busy());
    s.resume();
    assert_eq!(s.gate(0), Gate::Run);
    s.enter(0);
    assert!(!s.leave(1));
    assert!(s.stop);
    assert_eq!(s.gate(0), Gate::Stop);
    assert!(s.leave(0));
    assert_eq!(s.awaited(Reply::Value(7)), Some(Some(7)));
    assert_eq!(s.awaited(Reply::Gone), Some(None));
    assert_eq!(s.awaited(Reply::Timeout), Some(None));
    assert_eq!(Shared::new(1).awaited(Reply::Timeout), None);
}

fn exception(syndrome: u64) -> Result<Exit, PlatformError> {
    Ok(Exit {
        reason: 1,
        exception: Exception { syndrome, virtual_address: 1, physical_address: 0x0900_0000 },
    })
}

fn decode(syndrome: u64) -> Trap {
    resolve(&Shared::new(1), exception(syndrome)).unwrap().unwrap()
}

fn refuse(syndrome: u64) -> PlatformError {
    resolve(&Shared::new(1), exception(syndrome)).unwrap_err()
}

#[test]
fn exits_are_decoded() {
    assert_eq!(decode(0x16 << 26), Trap::Firmware);
    assert_eq!(decode(1 << 26), Trap::Idle);
    // A 4-byte read into register 5, sign extended, 64 bits wide.
    let esr = (0x24 << 26) | (1 << 24) | (2 << 22) | (1 << 21) | (5 << 16) | (1 << 15);
    assert_eq!(
        decode(esr),
        Trap::Access(Abort {
            address: 0x0900_0000,
            width: 4,
            reg: 5,
            write: false,
            signed: true,
            wide: true,
        })
    );
    // A byte write of register 31.
    let esr = (0x24 << 26) | (1 << 24) | (31 << 16) | (1 << 6);
    let Trap::Access(a) = decode(esr) else { panic!("no access") };
    assert!(a.write && a.width == 1 && a.reg == 31);
    assert_eq!(a.operand(), None);
    assert_eq!(Abort { reg: 3, ..a }.operand(), Some(3));
    for bad in [0x24 << 26, (0x24 << 26) | (1 << 24) | (1 << 7), (0x24 << 26) | (1 << 24) | (1 << 8)] {
        assert!(matches!(
            refuse(bad),
            PlatformError::UnsupportedDataAbort { syndrome, address: 0x0900_0000 } if syndrome == bad
        ));
    }
    // OSLAR_EL1: op0 2, op1 0, crn 1, crm 0, op2 4.
    let oslar = (0x18 << 26) | (2 << 20) | (4 << 17) | (1 << 10) | (7 << 5);
    assert_eq!(decode(oslar), Trap::Debug { reg: None });
    assert_eq!(decode(oslar | 1), Trap::Debug { reg: Some(7) });
    assert_eq!(decode(oslar | (31 << 5) | 1), Trap::Debug { reg: None });
    assert!(matches!(
        refuse((0x18 << 26) | (2 << 20)),
        PlatformError::UnsupportedSysreg { sysreg: 0x8000, .. }
    ));
    assert_eq!(
        decode(0x3f << 26),
        Trap::Unhandled { syndrome: 0x3f << 26, address: 0x0900_0000 }
    );
}

#[test]
fn runs_end_with_the_machine() {
    let mut s = Shared::new(1);
    let kicked = Exit {
        reason: 0,
        exception: Exception { syndrome: 0, virtual_address: 0, physical_address: 0 },
    };
    assert_eq!(resolve(&s, Ok(kicked)).unwrap(), Some(Trap::Kicked));
    assert!(matches!(
        resolve(&s, Ok(Exit { reason: 2, ..kicked })),
        Err(PlatformError::UnexpectedHvfExit { reason: 2, .. })
    ));
    assert!(matches!(
        resolve(&s, Err(PlatformError::VmNotPrepared)),
        Err(PlatformError::VmNotPrepared)
    ));
    s.stop();
    assert_eq!(resolve(&s, Err(PlatformError::VmNotPrepared)).unwrap(), None);
}

#[test]
fn reads_are_written_back() {
    let a = Abort { address: 0, width: 1, reg: 4, write: false, signed: true, wide: false };
    assert_eq!(write_back(&a, 0x80), Some((4, 0xffff_ff80)));
    assert_eq!(write_back(&Abort { wide: true, ..a }, 0x80), Some((4, 0xffff_ffff_ffff_ff80)));
    assert_eq!(write_back(&Abort { wide: true, ..a }, 0x17f), Some((4, 0x7f)));
    assert_eq!(write_back(&Abort { signed: false, ..a }, 0x1_0000_0080), Some((4, 0x80)));
    assert_eq!(write_back(&Abort { width: 8, wide: true, ..a }, u64::MAX), Some((4, u64::MAX)));
    assert_eq!(write_back(&Abort { width: 2, wide: true, ..a }, 0x8000), Some((4, 0xffff_ffff_ffff_8000)));
    assert_eq!(write_back(&Abort { width: 4, wide: true, ..a }, 0x8000_0000), Some((4, 0xffff_ffff_8000_0000)));
    assert_eq!(write_back(&Abort { reg: 31, ..a }, 1), None);
    assert_eq!(write_back(&Abort { write: true, ..a }, 1), None);
}

#[test]
fn firmware_calls() {
    let mut s = Shared::new(2);
    assert_eq!(call_firmware(&mut s, 0, 0x8400_0000, [0; 3]), Firmware::Answer(2));
    assert_eq!(call_firmware(&mut s, 0, 0x8400_0006, [0; 3]), Firmware::Answer(2));
    assert_eq!(call_firmware(&mut s, 0, 0x8400_0007, [0; 3]), Firmware::Answer(-1));
    // A narrow call looks at the lower halves only.
    assert_eq!(call_firmware(&mut s, 0, 0x8400_0003, [1 << 32 | 1, 0x8000, 7]), Firmware::Answer(0));
    assert_eq!(s.power[1], Power::Pending(0x8000, 7));
    assert_eq!(call_firmware(&mut s, 0, 0xc400_0003, [1 << 32, 0, 0]), Firmware::Answer(-2));
    assert_eq!(call_firmware(&mut s, 0, 0xc400_0004, [1, 0, 0]), Firmware::Answer(2));
    assert_eq!(call_firmware(&mut s, 1, 0x8400_0002, [0; 3]), Firmware::Off);
    assert_eq!(s.power[1], Power::Off);
    assert_eq!(call_firmware(&mut s, 0, 0x8400_0008, [0; 3]), Firmware::Shutdown);
    assert_eq!(call_firmware(&mut s, 0, 0x8400_0009, [0; 3]), Firmware::Shutdown);
    assert_eq!(argument_count(0xc400_0003), 3);
    assert_eq!(argument_count(0x8400_0004), 2);
    assert_eq!(argument_count(0x8400_0000), 0);
}

/// A vCPU of two, whose worker runs guest code.
fn inside() -> (Worker, Shared) {
    let mut s = Shared::new(2);
    let mut w = Worker::new(0);
    assert!(matches!(w.step(&mut s, Input::Changed), Action::Wait));
    s.start(0x4000_0000, 0x5000_0000);
    assert!(matches!(
        w.step(&mut s, Input::Changed),
        Action::Boot { entry: 0x4000_0000, context: 0x5000_0000 }
    ));
    assert!(!s.running[0]);
    assert!(matches!(w.step(&mut s, Input::Done(Ok(()))), Action::Run));
    assert!(s.running[0] && s.power[0] == Power::On);
    (w, s)
}

#[test]
fn workers_serve_accesses() {
    let (mut w, mut s) = inside();
    // A 4-byte read into register 5.
    let read = (0x24 << 26) | (1 << 24) | (2 << 22) | (5 << 16);
    assert!(matches!(
        w.step(&mut s, Input::Exited(exception(read))),
        Action::Ask { addr: 0x0900_0000, width: 4, write: false, value: 0 }
    ));
    assert!(s.running[0]);
    assert!(matches!(w.step(&mut s, Input::Done(Ok(()))), Action::Listen));
    assert!(!s.running[0]);
    assert!(matches!(w.step(&mut s, Input::Reply(Reply::Timeout)), Action::Listen));
    // The answer does not cross a pause.
    s.pause();
    assert!(matches!(w.step(&mut s, Input::Reply(Reply::Value(7))), Action::Wait));
    assert!(matches!(w.step(&mut s, Input::Changed), Action::Wait));
    assert!(!s.running[0]);
    s.resume();
    assert!(matches!(w.step(&mut s, Input::Changed), Action::Write(5, 7)));
    assert!(s.running[0]);
    assert!(matches!(w.step(&mut s, Input::Done(Ok(()))), Action::Read(31)));
    assert_eq!(w.phase(), Phase::Skipping);
    assert!(matches!(w.step(&mut s, Input::Register(Ok(0x1000))), Action::Write(31, 0x1004)));
    assert!(matches!(w.step(&mut s, Input::Done(Ok(()))), Action::Run));
    // A byte write of register 3: the value is looked up first.
    let write = (0x24 << 26) | (1 << 24) | (3 << 16) | (1 << 6);
    assert!(matches!(w.step(&mut s, Input::Exited(exception(write))), Action::Read(3)));
    assert!(matches!(
        w.step(&mut s, Input::Register(Ok(9))),
        Action::Ask { width: 1, write: true, value: 9, .. }
    ));
    assert!(matches!(w.step(&mut s, Input::Done(Ok(()))), Action::Listen));
    assert!(matches!(w.step(&mut s, Input::Reply(Reply::Value(1))), Action::Read(31)));
    assert!(matches!(w.step(&mut s, Input::Register(Ok(0))), Action::Write(31, 4)));
}

#[test]
fn workers_call_the_firmware() {
    let (mut w, mut s) = inside();
    let call = 0x16 << 26;
    assert!(matches!(w.step(&mut s, Input::Exited(exception(call))), Action::Read(0)));
    assert!(matches!(w.step(&mut s, Input::Register(Ok(0xc400_0003))), Action::Read(1)));
    assert!(matches!(w.step(&mut s, Input::Register(Ok(1))), Action::Read(2)));
    assert!(matches!(w.step(&mut s, Input::Register(Ok(0x8000))), Action::Read(3)));
    assert!(matches!(w.step(&mut s, Input::Register(Ok(6))), Action::Write(0, 0)));
    assert_eq!(s.power[1], Power::Pending(0x8000, 6));
    assert!(matches!(w.step(&mut s, Input::Done(Ok(()))), Action::Run));
    assert!(matches!(w.step(&mut s, Input::Exited(exception(call))), Action::Read(0)));
    assert!(matches!(w.step(&mut s, Input::Register(Ok(0x8400_0004))), Action::Read(1)));
    assert!(matches!(w.step(&mut s, Input::Register(Ok(1))), Action::Read(2)));
    assert!(matches!(w.step(&mut s, Input::Register(Ok(0))), Action::Write(0, 2)));
    assert!(matches!(w.step(&mut s, Input::Done(Ok(()))), Action::Run));
    // An unknown function.
    assert!(matches!(w.step(&mut s, Input::Exited(exception(call))), Action::Read(0)));
    assert!(matches!(w.step(&mut s, Input::Register(Ok(1))), Action::Write(0, u64::MAX)));
    assert!(matches!(w.step(&mut s, Input::Done(Ok(()))), Action::Run));
    // Off, and on again by another vCPU.
    assert!(matches!(w.step(&mut s, Input::Exited(exception(call))), Action::Read(0)));
    assert!(matches!(w.step(&mut s, Input::Register(Ok(0x8400_0002))), Action::Wait));
    assert!(s.power[0] == Power::Off && !s.running[0]);
    assert_eq!(s.on(0, 0x9000, 1), 0);
    assert!(matches!(
        w.step(&mut s, Input::Changed),
        Action::Boot { entry: 0x9000, context: 1 }
    ));
    assert!(matches!(w.step(&mut s, Input::Done(Ok(()))), Action::Run));
    // The VM ends.
    assert!(matches!(w.step(&mut s, Input::Exited(exception(call))), Action::Read(0)));
    assert!(matches!(w.step(&mut s, Input::Register(Ok(0x8400_0008))), Action::Tell));
    assert!(!s.stop);
    assert!(matches!(w.step(&mut s, Input::Done(Ok(()))), Action::Leave(Ok(()))));
    assert!(s.stop);
    assert_eq!(w.phase(), Phase::Gone);
}

#[test]
fn workers_leave() {
    // The VM stops while guest code runs, whatever came of it.
    let (mut w, mut s) = inside();
    s.stop();
    let failed = Input::Exited(Err(PlatformError::VmNotPrepared));
    assert!(matches!(w.step(&mut s, failed), Action::Leave(Ok(()))));
    // Nobody answers an access.
    let (mut w, mut s) = inside();
    let read = (0x24 << 26) | (1 << 24) | (31 << 16);
    assert!(matches!(w.step(&mut s, Input::Exited(exception(read))), Action::Ask { .. }));
    assert!(matches!(w.step(&mut s, Input::Done(Ok(()))), Action::Listen));
    assert!(matches!(w.step(&mut s, Input::Reply(Reply::Gone)), Action::Leave(Ok(()))));
    // An exception that nothing handles.
    let (mut w, mut s) = inside();
    assert!(matches!(w.step(&mut s, Input::Exited(exception(0x3f << 26))), Action::Read(31)));
    match w.step(&mut s, Input::Register(Ok(0x44))) {
        Action::Leave(Err(PlatformError::UnhandledException { address: 0x0900_0000, pc: 0x44, .. })) => {}
        other => panic!("{other:?}"),
    }
    // What is asked for fails.
    let (mut w, mut s) = inside();
    assert!(matches!(w.step(&mut s, Input::Exited(exception(1 << 26))), Action::Read(31)));
    match w.step(&mut s, Input::Register(Err(PlatformError::VmNotPrepared))) {
        Action::Leave(Err(PlatformError::VmNotPrepared)) => {}
        other => panic!("{other:?}"),
    }
    // Debug registers read as zero.
    let (mut w, mut s) = inside();
    let oslar = (0x18 << 26) | (2 << 20) | (4 << 17) | (1 << 10) | (7 << 5) | 1;
    assert!(matches!(w.step(&mut s, Input::Exited(exception(oslar))), Action::Write(7, 0)));
    assert!(matches!(w.step(&mut s, Input::Done(Ok(()))), Action::Read(31)));
    // A vCPU that was told to leave the guest goes back, unless it is paused.
    let (mut w, mut s) = inside();
    let kicked = || Exit {
        reason: 0,
        exception: Exception { syndrome: 0, virtual_address: 0, physical_address: 0 },
    };
    assert!(matches!(w.step(&mut s, Input::Exited(Ok(kicked()))), Action::Run));
    s.pause();
    assert!(matches!(w.step(&mut s, Input::Exited(Ok(kicked()))), Action::Wait));
    assert!(matches!(s.quiescent(), Some(Ok(()))));
    match w.step(&mut s, Input::Changed) {
        Action::Wait => {}
        other => panic!("{other:?}"),
    }
}

#[test]
fn vcpus_advance_and_boot() {
    let mut v = Vcpu { id: 3, pc: 0x1000 };
    v.advance();
    assert_eq!((v.id, v.pc), (3, 0x1004));
    let registers = boot_registers(0x4000_0000, 9);
    assert_eq!(registers.len(), 34);
    assert!(registers[..31].iter().enumerate().all(|(i, r)| *r == (i as u32, 0)));
    assert_eq!(registers[31..], [(34, 0x3c5), (31, 0x4000_0000), (0, 9)]);
}

#[test]
fn events_reach_the_run_loop() {
    let access = Access { addr: 0x1000, width: 4, write: true, value: 9, reply: 5u8 };
    match next_event(Inbox::Event(Event::Access(access)), false, None).unwrap() {
        Some(VmEvent::Io(a)) => {
            assert_eq!((a.address, a.width, a.write, a.value, a.completion), (0x1000, 4, true, 9, 5));
            assert_eq!(a.space, IoSpace::Mmio);
        }
        _ => panic!("no access"),
    }
    assert!(matches!(next_event::<u8>(Inbox::Event(Event::Shutdown), false, None), Ok(Some(VmEvent::Shutdown))));
    assert!(matches!(
        next_event::<u8>(Inbox::Event(Event::Failed(PlatformError::VmNotPrepared)), false, None),
        Err(PlatformError::VmNotPrepared)
    ));
    assert!(matches!(next_event::<u8>(Inbox::Timeout, false, None), Ok(None)));
    assert!(matches!(next_event::<u8>(Inbox::Timeout, true, None), Ok(Some(VmEvent::Shutdown))));
    assert!(matches!(
        next_event::<u8>(Inbox::Timeout, true, Some(Event::Failed(PlatformError::VmNotPrepared))),
        Err(PlatformError::VmNotPrepared)
    ));
    assert!(matches!(
        next_event::<u8>(Inbox::Disconnected, false, None),
        Err(PlatformError::EventChannelDisconnected)
    ));
}

fn kernel() -> Vec<u8> {
    let mut image = vec![0u8; 64];
    image[16..24].copy_from_slice(&(8u64 << 20).to_le_bytes());
    image[56..60].copy_from_slice(b"ARM\x64");
    image
}

fn needs(devices: usize, hotplug: Option<(u64, u64)>) -> DeviceRequirements {
    DeviceRequirements {
        devices: vec![DeviceKind::Net; devices],
        hotplug: hotplug.map(|(capacity, alignment)| MemoryRequirement { capacity, alignment }),
    }
}

fn layout(
    memory_mib: u64,
    vcpu_count: u32,
    needs: &DeviceRequirements,
    bits: u32,
) -> Result<w_vmm::platform::MachineLayout, PlatformError> {
    let config = VmConfig { memory_mib, vcpu_count };
    let limits = Limits { max_vcpus: Ok(4), ipa_bits: Ok(bits) };
    Hvf::layout(&config, needs, &kernel(), 4096, limits)
}

#[test]
fn platform_layout_is_valid() {
    let needs = needs(3, Some((128 << 20, 128 << 20)));
    let config = VmConfig { memory_mib: 513, vcpu_count: 4 };
    let l = layout(513, 4, &needs, 36).unwrap();
    assert_eq!(l.ram, [MemoryRange { address: RAM, size: 513 << 20 }]);
    assert_eq!(l.hotplug, Some(MemoryRange { address: RAM + (640 << 20), size: 128 << 20 }));
    assert_eq!((l.uart.address, l.uart.size, l.uart.irq), (UART, 8, UART_IRQ));
    assert_eq!(l.virtio.len(), 3);
    assert_eq!(l.virtio[2].address, VIRTIO_BASE + 2 * VIRTIO_STRIDE);
    l.validate(&config, &needs).unwrap();
}

#[test]
fn platform_layout_errors() {
    let none = needs(0, None);
    assert!(matches!(
        layout(64, 1, &none, 36),
        Err(PlatformError::Boot(BootError::MemoryMustBeAtLeast128Mib { mib: 64 }))
    ));
    for vcpus in [0, 5] {
        assert!(matches!(layout(512, vcpus, &none, 36), Err(PlatformError::UnsupportedVcpuCount)));
    }
    for bad in [(128 << 20, 0), (128 << 20, u64::MAX)] {
        let huge = needs(0, Some(bad));
        let r = layout(512, 1, &huge, 36);
        if bad.1 == 0 {
            assert!(matches!(r, Err(PlatformError::HotplugOverflow)));
        } else {
            assert!(matches!(r, Err(PlatformError::Boot(BootError::MemoryAddressOverflow { .. }))));
        }
    }
    assert!(matches!(
        layout(512, 1, &none, 30),
        Err(PlatformError::Boot(BootError::IpaRange { start: RAM, bits: 30, .. }))
    ));
    assert!(matches!(
        layout(512, 1, &needs(987, None), 36),
        Err(PlatformError::Boot(BootError::TooManyVirtioDevicesForGicSpis { count: 987 }))
    ));
    let config = VmConfig { memory_mib: 512, vcpu_count: 1 };
    let unknown = Limits { max_vcpus: Err(PlatformError::VmNotPrepared), ipa_bits: Ok(36) };
    assert!(matches!(
        Hvf::layout(&config, &none, &kernel(), 0, unknown),
        Err(PlatformError::VmNotPrepared)
    ));
}

#[test]
fn host_checks() {
    check(0, "map").unwrap();
    let e = check(-85, "map").unwrap_err();
    assert!(matches!(e, PlatformError::Hypervisor { operation, code: -85 } if operation == "map"));
    let regions = virtio_regions(2).unwrap();
    validate_irqs(32, 4, &regions).unwrap();
    assert!(matches!(validate_irqs(32, 3, &regions), Err(PlatformError::GicSpiRange { base: 32, end: 35 })));
    assert!(matches!(validate_irqs(34, 9, &regions), Err(PlatformError::GicSpiRange { base: 34, end: 43 })));
    assert!(matches!(validate_irqs(u32::MAX, 1, &regions), Err(PlatformError::InvalidGicSpiRange)));
    assert_eq!(check_redistributors(0x3000_0000).unwrap(), 0x3000_0000);
    assert!(matches!(check_redistributors(0x3000_0001), Err(PlatformError::GicOverlapsRam)));
    check_pages(0x8000, 0x4000, 0x4000).unwrap();
    assert!(matches!(check_pages(0x8001, 0x4000, 0x4000), Err(PlatformError::HvfHostPageAlignment)));
    assert!(matches!(check_pages(0x8000, 1, 0x4000), Err(PlatformError::HvfHostPageAlignment)));
}

//! Which layouts are accepted.
use w_vmm::error::PlatformError;
use w_vmm::platform::{
    DeviceKind, DeviceRequirements, IoRegion, IoSpace, MachineLayout, MemoryRange,
    MemoryRequirement, VmConfig,
};

const CONFIG: VmConfig = VmConfig { memory_mib: 3, vcpu_count: 1 };

fn device(address: u64) -> IoRegion {
    IoRegion { space: IoSpace::Mmio, address, size: 0x200, irq: 5 }
}

fn layout() -> MachineLayout {
    MachineLayout {
        ram: vec![
            MemoryRange { address: 0x10_0000, size: 0x10_0000 },
            MemoryRange { address: 0x40_0000, size: 0x20_0000 },
        ],
        uart: IoRegion { space: IoSpace::Port, address: 0x3f8, size: 8, irq: 4 },
        virtio: vec![device(0x1000), device(0x2000), device(0x3000)],
        hotplug: Some(MemoryRange { address: 0x800_0000, size: 0x800_0000 }),
    }
}

fn needs() -> DeviceRequirements {
    DeviceRequirements {
        devices: vec![DeviceKind::Block("a".to_owned()), DeviceKind::Net, DeviceKind::Memory],
        hotplug: Some(MemoryRequirement { capacity: 0x800_0000, alignment: 0x800_0000 }),
    }
}

#[test]
fn the_order_of_regions_does_not_matter() {
    let mut l = layout();
    for _ in 0..3 {
        l.virtio.rotate_left(1);
        l.ram.swap(0, 1);
        l.validate(&CONFIG, &needs()).unwrap();
    }
    l.virtio[0] = device(0x2100);
    for _ in 0..3 {
        l.virtio.rotate_left(1);
        l.ram.swap(0, 1);
        assert!(matches!(
            l.validate(&CONFIG, &needs()),
            Err(PlatformError::OverlappingRegions { .. })
        ));
    }
}

#[test]
fn refusals_name_their_cause() {
    let refuse = |change: fn(&mut MachineLayout)| {
        let mut l = layout();
        change(&mut l);
        l.validate(&CONFIG, &needs()).unwrap_err()
    };
    assert!(matches!(refuse(|l| l.ram.clear()), PlatformError::NoBaseRam));
    assert!(matches!(
        refuse(|l| l.virtio.truncate(2)),
        PlatformError::DeviceCountMismatch { expected: 3, actual: 2 }
    ));
    assert!(matches!(refuse(|l| l.uart.size = 7), PlatformError::UartRegionTooSmall { size: 7 }));
    assert!(matches!(
        refuse(|l| l.uart.address = 0xfff9),
        PlatformError::PortRangeOverflow { address: 0xfff9, size: 8 }
    ));
    assert!(matches!(
        refuse(|l| l.ram[0].size += 1),
        PlatformError::RamCapacityMismatch { expected_mib: 3, actual: 0x30_0001 }
    ));
    assert!(matches!(
        refuse(|l| l.virtio[1].size = 0x1ff),
        PlatformError::InvalidVirtioMmioRegion
    ));
    assert!(matches!(
        refuse(|l| l.virtio[1].space = IoSpace::Port),
        PlatformError::InvalidVirtioMmioRegion
    ));
    assert!(matches!(refuse(|l| l.hotplug = None), PlatformError::HotplugLayoutMismatch));
    assert!(matches!(
        refuse(|l| l.hotplug = Some(MemoryRange { address: 0x400_0000, size: 0x800_0000 })),
        PlatformError::InvalidHotplugCapacityAlignment { .. }
    ));
    assert!(matches!(refuse(|l| l.ram[0].size = 0), PlatformError::EmptyRegion));
    assert!(matches!(
        refuse(|l| l.ram[1].address = u64::MAX - 1),
        PlatformError::RegionOverflow { .. }
    ));
}

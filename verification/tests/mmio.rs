//! The virtio-mmio transport and its queues.
use virtio_bindings::virtio_blk::{
    VIRTIO_BLK_F_FLUSH, VIRTIO_BLK_F_RO, VIRTIO_BLK_S_IOERR, VIRTIO_BLK_S_OK, VIRTIO_BLK_S_UNSUPP,
    VIRTIO_BLK_T_FLUSH, VIRTIO_BLK_T_GET_ID, VIRTIO_BLK_T_IN, VIRTIO_BLK_T_OUT,
};
use virtio_bindings::virtio_config::VIRTIO_F_VERSION_1;
use virtio_bindings::virtio_net::{VIRTIO_NET_F_MAC, VIRTIO_NET_F_MTU};
use w_vmm::devices::block::{
    F_FLUSH, F_RO, S_IOERR, S_OK, S_UNSUPP, T_FLUSH, T_GET_ID, T_IN, T_OUT,
};
use w_vmm::devices::mmio::{read_config, Mmio, VirtioDevice, MAX_QUEUE, VERSION_1};
use w_vmm::devices::net::FEATURES;
use w_vmm::devices::queues::Queues;
use w_vmm::error::DeviceError;
use w_vmm::guest::{Guest, Ram};
use w_vmm::ring::{Descriptor, Ring};

struct Fake {
    notifications: usize,
    resets: usize,
}

impl VirtioDevice for Fake {
    fn required_features(&self) -> u64 {
        0
    }

    fn generation(&self) -> u32 {
        0
    }

    fn device_id(&self) -> u32 {
        42
    }

    fn features(&self) -> u64 {
        0
    }

    fn queue_count(&self) -> usize {
        2
    }

    fn read_config(&self, offset: usize, width: usize) -> Vec<u8> {
        read_config(&[0x12, 0x34, 0x56], offset, width)
    }

    fn notify(&mut self, _: usize, _: &mut Queues, _: &mut Guest) -> Result<(), DeviceError> {
        self.notifications += 1;
        Ok(())
    }

    fn poll(&mut self, _: &mut Queues, _: &mut Guest) -> Result<(), DeviceError> {
        Ok(())
    }

    fn reset(&mut self) -> Result<(), DeviceError> {
        self.resets += 1;
        Ok(())
    }

    fn flush(&mut self) -> Result<(), DeviceError> {
        Ok(())
    }
}

fn setup() -> (Mmio<Fake>, Guest) {
    (
        Mmio::new(Fake { notifications: 0, resets: 0 }),
        Guest::new(vec![Ram::new(0, 0x10000).unwrap()]).unwrap().1,
    )
}

fn initialize(device: &mut Mmio<Fake>, mem: &mut Guest) {
    for (offset, value) in [
        (0x70, 1),
        (0x70, 3),
        (0x24, 1),
        (0x20, 1),
        (0x24, 0),
        (0x20, device.features as u32),
        (0x70, 11),
    ] {
        device.write(offset, value, mem).unwrap();
    }
    for index in 0..device.queues.rings.len() {
        let base = 0x1000 + index as u32 * 0x3000;
        for (offset, value) in [
            (0x30, index as u32),
            (0x38, 8),
            (0x80, base),
            (0x90, base + 0x1000),
            (0xa0, base + 0x2000),
            (0x44, 1),
        ] {
            device.write(offset, value, mem).unwrap();
        }
    }
    device.write(0x70, 15, mem).unwrap();
}

fn put_descriptor(m: &mut Guest, at: u64, d: Descriptor) {
    assert!(m.poke(at, &d.addr.to_le_bytes()));
    assert!(m.poke(at + 8, &d.len.to_le_bytes()));
    assert!(m.poke(at + 12, &d.flags.to_le_bytes()));
    assert!(m.poke(at + 14, &d.next.to_le_bytes()));
}

fn put16(m: &mut Guest, at: u64, value: u16) {
    assert!(m.poke(at, &value.to_le_bytes()));
}

#[test]
fn numbers_are_those_of_virtio() {
    assert_eq!(VERSION_1, 1 << VIRTIO_F_VERSION_1);
    assert_eq!(FEATURES, 1 << VIRTIO_NET_F_MAC | 1 << VIRTIO_NET_F_MTU);
    assert_eq!((F_FLUSH, F_RO), (1 << VIRTIO_BLK_F_FLUSH, 1 << VIRTIO_BLK_F_RO));
    assert_eq!((T_IN, T_OUT), (VIRTIO_BLK_T_IN, VIRTIO_BLK_T_OUT));
    assert_eq!((T_FLUSH, T_GET_ID), (VIRTIO_BLK_T_FLUSH, VIRTIO_BLK_T_GET_ID));
    assert_eq!(
        [S_OK as u32, S_IOERR as u32, S_UNSUPP as u32],
        [VIRTIO_BLK_S_OK, VIRTIO_BLK_S_IOERR, VIRTIO_BLK_S_UNSUPP]
    );
}

#[test]
fn registers_negotiation_and_reset() {
    let (mut d, mut mem) = setup();
    assert_eq!(d.read(0, 4), 0x74726976);
    assert_eq!(d.read(8, 4), 42);
    assert_eq!(d.read(0x100, 4), 0x563412);
    assert_eq!(d.read(0x101, 2), 0x5634);
    assert_eq!(d.read(u64::MAX, 8), 0);
    assert_eq!(d.read(0x100, 0), 0);
    d.write(0x50, 0, &mut mem).unwrap();
    assert_eq!(d.device.notifications, 0);
    initialize(&mut d, &mut mem);
    d.write(0x50, 1, &mut mem).unwrap();
    assert_eq!(d.device.notifications, 1);
    d.write(0x50, 2, &mut mem).unwrap();
    assert_eq!(d.device.notifications, 1);
    d.write(0x30, u32::MAX, &mut mem).unwrap();
    assert_eq!(d.read(0x34, 4), 0);
    assert_eq!(d.read(0x44, 4), 0);
    d.write(0x30, 0, &mut mem).unwrap();
    assert!(d.write(0x38, 4, &mut mem).is_err());
    assert!(d.write(0x70, 3, &mut mem).is_err());
    d.queues.complete(0, &mut mem, 0, 12).unwrap();
    d.queues.complete(1, &mut mem, 0, 0).unwrap();
    assert!(d.interrupt_pending());
    d.write(0x64, 1, &mut mem).unwrap();
    assert!(!d.interrupt_pending());
    d.write(0x70, 0, &mut mem).unwrap();
    assert_eq!(d.device.resets, 1);
    assert_eq!(d.queues.negotiated, 0);
    assert!(d.queues.rings.iter().all(|q| !q.ready && q.next_used == 0));
    initialize(&mut d, &mut mem);
    assert_eq!(d.status, 15);
}

#[test]
fn rejects_unknown_features_and_unconfigured_second_queue() {
    let (mut d, mut mem) = setup();
    d.write(0x70, 3, &mut mem).unwrap();
    d.write(0x24, 1, &mut mem).unwrap();
    d.write(0x20, 3, &mut mem).unwrap(); // VERSION_1 plus an unsupported high feature.
    d.write(0x70, 11, &mut mem).unwrap();
    assert_eq!(d.status & 8, 0);
    assert!(d.write(0x70, 15, &mut mem).is_err());
    d.write(0x70, 0, &mut mem).unwrap();
    initialize(&mut d, &mut mem);
    d.status = 11;
    d.queues.rings[1].set_ready(false);
    assert!(d.write(0x70, 15, &mut mem).is_err());
}

#[test]
fn queue_memory_and_descriptor_validation() {
    for (flags, next, addr) in [
        (1, 9, 0x8000),
        (1, 0, 0x8000),
        (4, 0, 0x8000),
        (8, 0, 0x8000),
        (0, 0, u64::MAX),
    ] {
        let (mut d, mut mem) = setup();
        initialize(&mut d, &mut mem);
        put_descriptor(&mut mem, 0x1000, Descriptor::new(addr, 16, flags, next));
        put16(&mut mem, 0x2002, 1);
        assert!(d.queues.pop(0, &mut mem).is_err());
    }
    let (mut d, mut mem) = setup();
    initialize(&mut d, &mut mem);
    put16(&mut mem, 0x2002, 9);
    assert!(d.queues.available(0, &mut mem).is_err());
    d.write(0x70, 0, &mut mem).unwrap();
    assert!(d.write(0x38, 129, &mut mem).is_err());
    assert!(d.write(0x38, 3, &mut mem).is_err());
    d.write(0x80, 0xffff_f000, &mut mem).unwrap();
    assert!(d.write(0x44, 1, &mut mem).is_err());
}

#[test]
fn registers_report_identity_and_features() {
    let (mut d, mut mem) = setup();
    assert_eq!(d.read(4, 4), 2);
    assert_eq!(d.read(12, 4), 0x57564d4d);
    assert_eq!(d.features, VERSION_1);
    assert_eq!(d.read(0x10, 4), 0);
    d.write(0x14, 1, &mut mem).unwrap();
    assert_eq!(d.read(0x10, 4), 1);
    assert_eq!(d.read(0x34, 4), MAX_QUEUE as u64);
    assert_eq!(d.read(0x34, 2), 0);
    assert_eq!(d.read(0x102, 8), 0x56);
    assert_eq!(d.read(0xfff, 2), 0);
}

#[test]
fn queue_errors_name_their_cause() {
    let (mut d, mut mem) = setup();
    assert!(matches!(d.write(0x38, 129, &mut mem), Err(DeviceError::QueueTooLarge { size: 129, max: 128 })));
    assert!(matches!(d.write(0x38, 3, &mut mem), Err(DeviceError::Queue)));
    assert!(matches!(d.write(0x44, 2, &mut mem), Err(DeviceError::InvalidQueueReady { value: 2 })));
    d.write(0x80, 0x20000, &mut mem).unwrap();
    assert!(matches!(d.write(0x44, 1, &mut mem), Err(DeviceError::InvalidQueueMemory)));
    assert!(matches!(d.write(0x38, 8, &mut mem), Err(DeviceError::QueueConfigurationWhileReady)));
    d.write(0x44, 0, &mut mem).unwrap();
    d.write(0x38, 8, &mut mem).unwrap();
    d.write(0x70, 1, &mut mem).unwrap();
    assert!(matches!(d.write(0x70, 2, &mut mem), Err(DeviceError::StatusBitsCleared)));
    assert!(matches!(d.write(0x70, 5, &mut mem), Err(DeviceError::DriverNotReady)));
    d.write(0x70, 0, &mut mem).unwrap();
    initialize(&mut d, &mut mem);
    d.write(0x30, 0, &mut mem).unwrap();
    assert!(matches!(d.write(0x38, 8, &mut mem), Err(DeviceError::QueueConfigurationAfterDriverOk)));
}

#[test]
fn chains_are_followed_and_refused() {
    let (mut d, mut mem) = setup();
    initialize(&mut d, &mut mem);
    put_descriptor(&mut mem, 0x1000, Descriptor::new(0x8000, 16, 1, 3));
    put_descriptor(&mut mem, 0x1030, Descriptor::new(0x9000, 8, 2, 0));
    put16(&mut mem, 0x2002, 1);
    assert_eq!(d.queues.available(0, &mut mem).unwrap(), 1);
    let chain = d.queues.pop(0, &mut mem).unwrap().unwrap();
    assert_eq!(chain.head, 0);
    assert_eq!(chain.descriptors.len(), 2);
    assert_eq!(chain.descriptors[1].addr, 0x9000);
    assert!(d.queues.pop(0, &mut mem).unwrap().is_none());
    // A cycle, an index beyond the queue, an indirect table and unknown flags.
    let refuse = |descriptor: Descriptor| {
        let (mut d, mut mem) = setup();
        initialize(&mut d, &mut mem);
        put_descriptor(&mut mem, 0x1000, descriptor);
        put16(&mut mem, 0x2002, 1);
        d.queues.pop(0, &mut mem).err().unwrap()
    };
    assert!(matches!(refuse(Descriptor::new(0x8000, 16, 1, 0)), DeviceError::CyclicDescriptorChain));
    assert!(matches!(
        refuse(Descriptor::new(0x8000, 16, 1, 9)),
        DeviceError::DescriptorIndexOutOfRange { index: 9, size: 8 }
    ));
    let (mut d, mut mem) = setup();
    initialize(&mut d, &mut mem);
    put16(&mut mem, 0x2002, 9);
    assert!(matches!(
        d.queues.available(0, &mut mem),
        Err(DeviceError::AvailableRingOverrun { count: 9, size: 8 })
    ));
}

#[test]
fn completion_stores_a_used_element() {
    let (mut d, mut mem) = setup();
    initialize(&mut d, &mut mem);
    d.queues.complete(0, &mut mem, 3, 12).unwrap();
    let used = mem.peek(0x3002, 10).unwrap();
    assert_eq!(used[..2], 1u16.to_le_bytes());
    assert_eq!(used[2..6], 3u32.to_le_bytes());
    assert_eq!(used[6..10], 12u32.to_le_bytes());
    assert!(d.queues.complete(0, &mut mem, 8, 0).is_err());
}

#[test]
fn confirmed_features_cannot_change() {
    let (mut d, mut mem) = setup();
    initialize(&mut d, &mut mem);
    let before = d.queues.negotiated;
    d.write(0x24, 0, &mut mem).unwrap();
    d.write(0x20, 0xffff, &mut mem).unwrap();
    assert_eq!(d.queues.negotiated, before);
    assert_eq!(d.status & 8, 8);
}

#[test]
fn pinned_ranges_cover_tables_and_buffers() {
    let (mut d, mut mem) = setup();
    initialize(&mut d, &mut mem);
    put_descriptor(&mut mem, 0x1000, Descriptor::new(0x8000, 16, 0, 0));
    put16(&mut mem, 0x2002, 1);
    let pins = d.queues.pinned(&mut mem).unwrap();
    let covers = |addr: u64| pins.iter().any(|r| r.0 <= addr && addr < r.0 + r.1);
    assert!(covers(0x1000) && covers(0x2000) && covers(0x3000) && covers(0x8000));
    assert!(covers(0x4000) && covers(0x5000) && covers(0x6000));
    assert!(!covers(0x9000));
}

#[test]
fn used_elements_are_stored_as_far_as_they_are_mapped() {
    let mut ring = Ring::new(1);
    let mut view = Guest::new(vec![Ram::new(0, 8).unwrap()]).unwrap().1;
    assert!(view.poke(0, &[9; 8]));
    assert!(!ring.add_used(&mut view, 1, 0x0403_0201));
    assert_eq!(view.peek(0, 8).unwrap(), [9; 8]);
    assert!(!ring.add_used(&mut view, 0, 0x0403_0201));
    assert_eq!(view.peek(0, 8).unwrap(), [9, 9, 9, 9, 0, 0, 0, 0]);
    assert_eq!(ring.next_used, 0);
    let mut view = Guest::new(vec![Ram::new(0, 12).unwrap()]).unwrap().1;
    assert!(ring.add_used(&mut view, 0, 0x0403_0201));
    assert_eq!(view.peek(0, 12).unwrap(), [0, 0, 1, 0, 0, 0, 0, 0, 1, 2, 3, 4]);
    assert_eq!(ring.next_used, 1);
}

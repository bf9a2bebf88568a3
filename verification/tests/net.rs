//! virtio-net over a fake backend.
use std::cell::RefCell;
use std::collections::VecDeque;
use std::rc::Rc;
use w_vmm::devices::mmio::{Mmio, VirtioDevice};
use w_vmm::devices::net::{Net, HEADER};
use w_vmm::error::{DeviceError, Failure, NetError};
use w_vmm::guest::{Guest, Ram, Segment};
use w_vmm::net::NetDevice;
use w_vmm::ring::Descriptor;

#[derive(Default)]
struct Fake {
    received: VecDeque<Vec<u8>>,
    sent: Vec<Vec<u8>>,
    blocked: bool,
    fail: bool,
    tx_addresses: Vec<Vec<(u64, usize)>>,
    rx_addresses: Vec<Vec<(u64, usize)>>,
    fetched: usize,
}

#[derive(Clone, Default)]
struct Shared(Rc<RefCell<Fake>>);

fn backend(message: &str) -> NetError {
    NetError::Backend(Failure { chain: vec![message.to_owned()] })
}

fn places(segments: &[Segment]) -> Vec<(u64, usize)> {
    segments.iter().map(|s| (s.addr, s.len)).collect()
}

impl NetDevice for Shared {
    const MTU: u16 = 1500;

    fn mac_address(&self) -> [u8; 6] {
        [2, 0, 0, 0, 0, 1]
    }

    fn max_frame_len(&self) -> usize {
        1514
    }

    fn send(&mut self, frame: &[Segment], mem: &mut Guest) -> Result<bool, NetError> {
        let mut b = self.0.borrow_mut();
        b.tx_addresses.push(places(frame));
        if b.fail {
            return Err(backend("injected send failure"));
        }
        if b.blocked {
            return Ok(false);
        }
        let bytes = frame.iter().flat_map(|s| mem.peek(s.addr, s.len).unwrap()).collect();
        b.sent.push(bytes);
        Ok(true)
    }

    fn resend(&mut self, frame: &[u8]) -> Result<bool, NetError> {
        let mut b = self.0.borrow_mut();
        if b.fail {
            return Err(backend("injected send failure"));
        }
        if b.blocked {
            return Ok(false);
        }
        b.sent.push(frame.to_vec());
        Ok(true)
    }

    fn recv(&mut self, buffer: &[Segment], mem: &mut Guest) -> Result<Option<usize>, NetError> {
        let mut b = self.0.borrow_mut();
        b.rx_addresses.push(places(buffer));
        if b.fail {
            return Err(backend("injected receive failure"));
        }
        let Some(frame) = b.received.pop_front() else {
            return Ok(None);
        };
        let mut at = 0;
        for s in buffer {
            let n = s.len.min(frame.len() - at);
            assert!(mem.poke(s.addr, &frame[at..at + n]));
            at += n;
        }
        Ok(Some(frame.len()))
    }

    fn fetch(&mut self, _: usize) -> Result<Option<Vec<u8>>, NetError> {
        let mut b = self.0.borrow_mut();
        b.fetched += 1;
        if b.fail {
            return Err(backend("injected receive failure"));
        }
        Ok(b.received.pop_front())
    }
}

struct Sized<const MTU: u16>(usize);

impl<const MTU: u16> NetDevice for Sized<MTU> {
    const MTU: u16 = MTU;

    fn mac_address(&self) -> [u8; 6] {
        [2, 0, 0, 0, 0, 1]
    }

    fn max_frame_len(&self) -> usize {
        self.0
    }

    fn send(&mut self, _: &[Segment], _: &mut Guest) -> Result<bool, NetError> {
        unreachable!()
    }

    fn resend(&mut self, _: &[u8]) -> Result<bool, NetError> {
        unreachable!()
    }

    fn recv(&mut self, _: &[Segment], _: &mut Guest) -> Result<Option<usize>, NetError> {
        unreachable!()
    }

    fn fetch(&mut self, _: usize) -> Result<Option<Vec<u8>>, NetError> {
        unreachable!()
    }
}

#[test]
fn associated_mtu_and_frame_capacity() {
    let d = Net::new(Box::new(Sized::<9000>(9014))).unwrap();
    let mtu = d.read_config(10, 2);
    assert_eq!(u16::from_le_bytes([mtu[0], mtu[1]]), 9000);
    assert_eq!(<Box<Sized<9000>> as NetDevice>::MTU, 9000);
    assert!(Net::new(Sized::<9000>(9013)).is_err());
    assert!(Net::new(Sized::<67>(1514)).is_err());
    assert!(Net::new(Sized::<1500>(u16::MAX as usize + 19)).is_err());
}

type TestNet = Mmio<Net<Shared>>;

fn memory(ranges: &[(u64, usize)]) -> Guest {
    Guest::new(ranges.iter().map(|r| Ram::new(r.0, r.1).unwrap()).collect()).unwrap().1
}

fn initialize(device: &mut TestNet, mem: &mut Guest) {
    for (offset, value) in [
        (0x70, 1),
        (0x70, 3),
        (0x24, 1),
        (0x20, 1),
        (0x24, 0),
        (0x20, device.features as u32),
        (0x70, 11),
    ] {
        device.write(offset, value, mem).unwrap();
    }
    for index in 0..device.queues.rings.len() {
        let base = 0x1000 + index as u32 * 0x3000;
        for (offset, value) in [
            (0x30, index as u32),
            (0x38, 8),
            (0x80, base),
            (0x90, base + 0x1000),
            (0xa0, base + 0x2000),
            (0x44, 1),
        ] {
            device.write(offset, value, mem).unwrap();
        }
    }
    device.write(0x70, 15, mem).unwrap();
}

fn setup() -> (TestNet, Guest, Shared) {
    let shared = Shared::default();
    let mut mem = memory(&[(0, 0x20000)]);
    let mut net = Mmio::new(Net::new(shared.clone()).unwrap());
    initialize(&mut net, &mut mem);
    (net, mem, shared)
}

fn put(m: &mut Guest, addr: u64, data: &[u8]) {
    assert!(m.poke(addr, data));
}

fn post(net: &TestNet, mem: &mut Guest, queue: usize, desc: &[Descriptor]) {
    let q = &net.queues.rings[queue];
    for (i, d) in desc.iter().enumerate() {
        let at = q.desc_table + i as u64 * 16;
        put(mem, at, &d.addr.to_le_bytes());
        put(mem, at + 8, &d.len.to_le_bytes());
        put(mem, at + 12, &d.flags.to_le_bytes());
        put(mem, at + 14, &d.next.to_le_bytes());
    }
    let idx = q.next_avail;
    put(mem, q.avail_ring + 4 + u64::from(idx % q.size) * 2, &0u16.to_le_bytes());
    put(mem, q.avail_ring + 2, &idx.wrapping_add(1).to_le_bytes());
}

fn tx(net: &TestNet, mem: &mut Guest) -> Vec<u8> {
    let frame = vec![0x5a; 64];
    let mut packet = vec![0; HEADER];
    packet.extend_from_slice(&frame);
    put(mem, 0x8000, &packet[..5]);
    put(mem, 0x9000, &packet[5..]);
    post(net, mem, 1, &[Descriptor::new(0x8000, 5, 1, 1), Descriptor::new(0x9000, 71, 0, 0)]);
    frame
}

fn used(mem: &mut Guest, queue: usize) -> (u16, u32) {
    let base = 0x3000 + queue as u64 * 0x3000;
    let a = mem.peek(base + 2, 2).unwrap();
    let b = mem.peek(base + 8, 4).unwrap();
    (u16::from_le_bytes([a[0], a[1]]), u32::from_le_bytes([b[0], b[1], b[2], b[3]]))
}

#[test]
fn scatter_transmit_receive_and_irq() {
    let (mut net, mut mem, shared) = setup();
    assert_eq!(net.read(8, 4), 1);
    assert_eq!(net.read(0x100, 4), 2);
    assert_eq!(net.read(0x104, 2), 0x100);
    assert_eq!(net.read(0x10a, 2), 1500);
    let frame = tx(&net, &mut mem);
    net.write(0x50, 1, &mut mem).unwrap();
    assert_eq!(shared.0.borrow().sent.as_slice(), std::slice::from_ref(&frame));
    assert_eq!(used(&mut mem, 1), (1, 0));
    post(&net, &mut mem, 0, &[Descriptor::new(0xa000, 7, 3, 1), Descriptor::new(0xb000, 100, 2, 0)]);
    net.write(0x50, 0, &mut mem).unwrap();
    assert_eq!(used(&mut mem, 0), (0, 0)); // no packet: descriptor remains available
    assert_eq!(net.queues.rings[0].next_avail, 0);
    shared.0.borrow_mut().received.push_back(frame.clone());
    net.poll(&mut mem).unwrap(); // no guest notification needed for incoming traffic
    assert_eq!(used(&mut mem, 0), (1, 76));
    let mut received = mem.peek(0xa000, 7).unwrap();
    received.extend(mem.peek(0xb000, 69).unwrap());
    assert_eq!(&received[..10], &[0; 10]);
    assert_eq!(&received[10..12], &1u16.to_le_bytes());
    assert_eq!(&received[12..], &frame);
    assert!(net.interrupt_pending());
    net.write(0x64, 1, &mut mem).unwrap();
    assert!(!net.interrupt_pending());
}

#[test]
fn backpressure_retries_owned_frame_once_and_reset_cancels_it() {
    let (mut net, mut mem, shared) = setup();
    let frame = tx(&net, &mut mem);
    shared.0.borrow_mut().blocked = true;
    net.write(0x50, 1, &mut mem).unwrap();
    assert_eq!(used(&mut mem, 1), (0, 0));
    assert_eq!(net.queues.rings[1].next_avail, 1);
    put(&mut mem, 0x9000, &[0xff; 71]);
    net.poll(&mut mem).unwrap();
    shared.0.borrow_mut().blocked = false;
    net.poll(&mut mem).unwrap();
    net.poll(&mut mem).unwrap();
    assert_eq!(shared.0.borrow().sent, [frame]);
    assert_eq!(used(&mut mem, 1), (1, 0));
    tx(&net, &mut mem);
    shared.0.borrow_mut().blocked = true;
    net.poll(&mut mem).unwrap();
    assert!(net.device.pending_tx.is_some());
    net.write(0x70, 0, &mut mem).unwrap();
    assert!(net.device.pending_tx.is_none());
    shared.0.borrow_mut().blocked = false;
    net.poll(&mut mem).unwrap();
    assert_eq!(shared.0.borrow().sent.len(), 1);
}

#[test]
fn short_rx_drops_packet_without_partial_copy() {
    let (mut net, mut mem, shared) = setup();
    shared.0.borrow_mut().received.push_back(vec![0x77; 64]);
    put(&mut mem, 0x8000, &[0xaa; 32]);
    post(&net, &mut mem, 0, &[Descriptor::new(0x8000, 32, 2, 0)]);
    net.poll(&mut mem).unwrap();
    assert_eq!(used(&mut mem, 0), (1, 0));
    assert_eq!(mem.peek(0x8000, 1).unwrap(), [0xaa]);
}

#[test]
fn invalid_frames_directions_and_backend_errors() {
    for (length, flags) in [(11, 0), (25, 0), (1527, 0), (76, 2)] {
        let (mut net, mut mem, shared) = setup();
        post(&net, &mut mem, 1, &[Descriptor::new(0x8000, length, flags, 0)]);
        assert!(net.poll(&mut mem).is_err());
        assert!(shared.0.borrow().sent.is_empty());
    }
    let (mut net, mut mem, _) = setup();
    tx(&net, &mut mem);
    put(&mut mem, 0x8000, &[1]);
    assert!(net.poll(&mut mem).is_err());
    let (mut net, mut mem, shared) = setup();
    post(&net, &mut mem, 0, &[Descriptor::new(0x8000, 2048, 0, 0)]);
    shared.0.borrow_mut().received.push_back(vec![0; 64]);
    assert!(net.poll(&mut mem).is_err());
    let (mut net, mut mem, shared) = setup();
    tx(&net, &mut mem);
    shared.0.borrow_mut().fail = true;
    assert!(matches!(
        net.poll(&mut mem),
        Err(DeviceError::Net(NetError::Backend(source))) if source.chain == ["injected send failure"]
    ));
    assert_eq!(used(&mut mem, 1), (0, 0));
}

#[test]
fn direct_guest_addresses_cross_regions_empty_segments_and_rollback() {
    let shared = Shared::default();
    let mut mem = memory(&[(0, 0x9000), (0x9000, 0x17000)]);
    let mut net = Mmio::new(Net::new(shared.clone()).unwrap());
    initialize(&mut net, &mut mem);
    let mut packet = vec![0; HEADER];
    packet.extend_from_slice(&[0x66; 64]);
    put(&mut mem, 0x8ff0, &packet[..16]);
    put(&mut mem, 0x9000, &packet[16..]);
    post(
        &net,
        &mut mem,
        1,
        &[
            Descriptor::new(0, 0, 1, 1),
            Descriptor::new(0x8ff0, 5, 1, 2),
            Descriptor::new(0x8ff5, 71, 0, 0),
        ],
    );
    net.poll(&mut mem).unwrap();
    assert_eq!(shared.0.borrow().tx_addresses[0], [(0x8ffc, 4), (0x9000, 60)]);
    assert!(net.device.tx.is_empty()); // successful TX did not create a payload snapshot
    post(
        &net,
        &mut mem,
        0,
        &[
            Descriptor::new(0x8ff8, 5, 3, 1),
            Descriptor::new(0, 0, 3, 2),
            Descriptor::new(0x8ffd, 2043, 2, 0),
        ],
    );
    net.poll(&mut mem).unwrap();
    net.poll(&mut mem).unwrap();
    assert_eq!(net.queues.rings[0].next_avail, 0);
    assert_eq!(used(&mut mem, 0), (0, 0));
    shared.0.borrow_mut().received.push_back(vec![0x77; 64]);
    net.poll(&mut mem).unwrap();
    assert_eq!(shared.0.borrow().rx_addresses.last().unwrap(), &[(0x9004, 1514)]);
    let actual = mem.peek(0x9004, 64).unwrap();
    assert_eq!(actual, [0x77; 64]);
    assert_eq!(used(&mut mem, 0), (1, 76));
}

#[test]
fn overlapping_receive_uses_snapshot_and_invalid_tail_never_reaches_backend() {
    let (mut net, mut mem, shared) = setup();
    shared.0.borrow_mut().received.push_back((0..64).collect());
    post(&net, &mut mem, 0, &[Descriptor::new(0x8000, 20, 3, 1), Descriptor::new(0x8000, 2048, 2, 0)]);
    net.poll(&mut mem).unwrap();
    assert!(shared.0.borrow().rx_addresses.is_empty());
    assert_eq!(shared.0.borrow().fetched, 1);
    let actual = mem.peek(0x8000, 56).unwrap();
    assert_eq!(actual, (8..64).collect::<Vec<u8>>());
    let (mut net, mut mem, shared) = setup();
    post(&net, &mut mem, 1, &[Descriptor::new(0x8000, 40, 1, 1), Descriptor::new(0x1fff0, 40, 0, 0)]);
    assert!(net.poll(&mut mem).is_err());
    assert!(shared.0.borrow().tx_addresses.is_empty());
}

#[test]
fn frame_errors_name_their_cause() {
    let refuse = |desc: &[Descriptor]| {
        let (mut net, mut mem, _) = setup();
        post(&net, &mut mem, 1, desc);
        net.poll(&mut mem).unwrap_err()
    };
    assert!(matches!(
        refuse(&[Descriptor::new(0x8000, 25, 0, 0)]),
        DeviceError::InvalidTxPacketSize { length: 25, capacity: 1526 }
    ));
    assert!(matches!(refuse(&[Descriptor::new(0x8000, 76, 2, 0)]), DeviceError::TxDescriptorMustBeReadable));
    let (mut net, mut mem, _) = setup();
    tx(&net, &mut mem);
    put(&mut mem, 0x8001, &[1]);
    assert!(matches!(net.poll(&mut mem), Err(DeviceError::UnnegotiatedTxChecksumGsoOffload)));
    let (mut net, mut mem, _) = setup();
    post(&net, &mut mem, 0, &[Descriptor::new(0x8000, 2048, 0, 0)]);
    assert!(matches!(net.poll(&mut mem), Err(DeviceError::RxDescriptorMustBeWritable)));
    let (mut net, mut mem, shared) = setup();
    post(&net, &mut mem, 0, &[Descriptor::new(0x8000, 2048, 2, 0)]);
    shared.0.borrow_mut().received.push_back(vec![0; 13]);
    assert!(matches!(
        net.poll(&mut mem),
        Err(DeviceError::InvalidBackendRxPacketSize { length: 13, capacity: 1514 })
    ));
}

#[test]
fn each_turn_is_bounded() {
    let (mut net, mut mem, shared) = setup();
    let frame = tx(&net, &mut mem);
    net.poll(&mut mem).unwrap();
    for _ in 0..9 {
        tx(&net, &mut mem);
        net.poll(&mut mem).unwrap();
    }
    assert_eq!(shared.0.borrow().sent.len(), 10);
    assert!(shared.0.borrow().sent.iter().all(|f| *f == frame));
}

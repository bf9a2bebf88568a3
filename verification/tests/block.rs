//! virtio-blk over a fake disk.
use std::cell::{Cell, RefCell};
use std::rc::Rc;
use w_vmm::devices::block::{
    command, Block, Command, F_FLUSH, F_RO, S_IOERR, S_OK, S_UNSUPP, T_FLUSH, T_GET_ID, T_IN, T_OUT,
};
use w_vmm::devices::mmio::{Mmio, VirtioDevice};
use w_vmm::error::{DeviceError, Failure, StorageError};
use w_vmm::guest::{Guest, Ram, Segment};
use w_vmm::ring::Descriptor;
use w_vmm::storage::{bounds, BlockStorage};

struct Fake {
    data: RefCell<Vec<u8>>,
    ro: bool,
    fail: bool,
    flushes: Cell<usize>,
    addresses: RefCell<Vec<(u64, usize)>>,
    partial: Cell<bool>,
}

#[derive(Clone)]
struct Disk(Rc<Fake>);

fn backend(message: &str) -> StorageError {
    StorageError::Backend(Failure { chain: vec![message.to_owned()] })
}

fn total(d: &[Segment]) -> usize {
    d.iter().map(|s| s.len).sum()
}

impl BlockStorage for Disk {
    fn size(&self) -> u64 {
        self.0.data.borrow().len() as u64
    }

    fn read_only(&self) -> bool {
        self.0.ro
    }

    fn read(&mut self, o: u64, d: &[Segment], mem: &mut Guest) -> Result<(), StorageError> {
        *self.0.addresses.borrow_mut() = d.iter().map(|s| (s.addr, s.len)).collect();
        if self.0.partial.get() {
            if let Some(first) = d.first() {
                assert!(mem.poke(first.addr, &[0x99]));
            }
            return Err(backend("partial read"));
        }
        if self.0.fail {
            return Err(backend("injected host I/O error"));
        }
        bounds(self.size(), o, total(d))?;
        let mut at = o as usize;
        for s in d {
            assert!(mem.poke(s.addr, &self.0.data.borrow()[at..at + s.len]));
            at += s.len;
        }
        Ok(())
    }

    fn write(&mut self, o: u64, d: &[Segment], mem: &mut Guest) -> Result<(), StorageError> {
        *self.0.addresses.borrow_mut() = d.iter().map(|s| (s.addr, s.len)).collect();
        if self.0.ro || self.0.fail {
            return Err(backend("read-only/injected host I/O error"));
        }
        bounds(self.size(), o, total(d))?;
        let mut at = o as usize;
        for s in d {
            let data = mem.peek(s.addr, s.len).unwrap();
            self.0.data.borrow_mut()[at..at + s.len].copy_from_slice(&data);
            at += s.len;
        }
        Ok(())
    }

    fn flush(&mut self) -> Result<(), StorageError> {
        self.0.flushes.set(self.0.flushes.get() + 1);
        if self.0.fail {
            return Err(backend("injected sync error"));
        }
        Ok(())
    }
}

fn memory(ranges: &[(u64, usize)]) -> Guest {
    Guest::new(ranges.iter().map(|r| Ram::new(r.0, r.1).unwrap()).collect()).unwrap().1
}

fn put(m: &mut Guest, addr: u64, data: &[u8]) {
    assert!(m.poke(addr, data));
}

fn put_descriptor(m: &mut Guest, at: u64, d: Descriptor) {
    put(m, at, &d.addr.to_le_bytes());
    put(m, at + 8, &d.len.to_le_bytes());
    put(m, at + 12, &d.flags.to_le_bytes());
    put(m, at + 14, &d.next.to_le_bytes());
}

fn get16(m: &mut Guest, at: u64) -> u16 {
    let b = m.peek(at, 2).unwrap();
    u16::from_le_bytes([b[0], b[1]])
}

fn get32(m: &mut Guest, at: u64) -> u32 {
    let b = m.peek(at, 4).unwrap();
    u32::from_le_bytes([b[0], b[1], b[2], b[3]])
}

fn disk(ro: bool, fail: bool) -> Disk {
    Disk(Rc::new(Fake {
        data: RefCell::new(vec![0; 4096]),
        ro,
        fail,
        flushes: Cell::new(0),
        addresses: RefCell::new(Vec::new()),
        partial: Cell::new(false),
    }))
}

fn setup(ro: bool, fail: bool) -> (Mmio<Block<Disk>>, Guest, Disk) {
    let disk = disk(ro, fail);
    let mut mem = memory(&[(0, 0x10000)]);
    let mut b = Mmio::new(Block::new("w-vmm-data-000000001".to_owned(), disk.clone()).unwrap());
    for (o, v) in [
        (0x70, 1),
        (0x70, 3),
        (0x24, 1),
        (0x20, 1),
        (0x24, 0),
        (0x20, (b.features & 0xffff_ffff) as u32),
        (0x70, 11),
        (0x38, 8),
        (0x80, 0x1000),
        (0x90, 0x2000),
        (0xa0, 0x3000),
        (0x44, 1),
        (0x70, 15),
    ] {
        b.write(o, v, &mut mem).unwrap();
    }
    (b, mem, disk)
}

fn submit(
    b: &mut Mmio<Block<Disk>>,
    m: &mut Guest,
    kind: u32,
    sector: u64,
    len: u32,
) -> Result<(), DeviceError> {
    let idx = b.queues.rings[0].next_avail;
    let header = Descriptor::new(0x4000, 16, 1, 1);
    let data = Descriptor::new(0x5000, len, if kind == T_OUT { 1 } else { 3 }, 2);
    let status = Descriptor::new(0x6000, 1, 2, 0);
    put_descriptor(m, 0x1000, header);
    put_descriptor(m, 0x1010, data);
    put_descriptor(m, 0x1020, status);
    put(m, 0x4000, &kind.to_le_bytes());
    put(m, 0x4008, &sector.to_le_bytes());
    put(m, 0x2004 + 2 * (idx % 8) as u64, &0u16.to_le_bytes());
    put(m, 0x2002, &idx.wrapping_add(1).to_le_bytes());
    b.write(0x50, 0, m)
}

fn status(m: &mut Guest) -> u8 {
    m.peek(0x6000, 1).unwrap()[0]
}

#[test]
fn io_used_ring_flush_and_reset() {
    let (mut b, mut m, d) = setup(false, false);
    put(&mut m, 0x5000, &[0x5a; 512]);
    submit(&mut b, &mut m, T_OUT, 1, 512).unwrap();
    assert_eq!(status(&mut m), 0);
    assert_eq!(&d.0.data.borrow()[512..1024], &[0x5a; 512]);
    put(&mut m, 0x5000, &[0; 512]);
    submit(&mut b, &mut m, T_IN, 1, 512).unwrap();
    assert_eq!(status(&mut m), 0);
    assert_eq!(m.peek(0x5000, 1).unwrap(), [0x5a]);
    assert_eq!(get16(&mut m, 0x3002), 2);
    assert!(b.interrupt_pending());
    b.write(0x64, 1, &mut m).unwrap();
    assert!(!b.interrupt_pending());
    submit(&mut b, &mut m, T_FLUSH, 0, 0).unwrap();
    assert_eq!(d.0.flushes.get(), 1);
    b.write(0x70, 0, &mut m).unwrap();
    assert_eq!(b.status, 0);
    assert!(!b.queues.rings[0].ready);
    assert_eq!(b.queues.negotiated, 0);
    assert_eq!(b.queues.rings[0].next_avail, 0);
}

#[test]
fn readonly_bounds_and_io_errors() {
    for (ro, fail, sector) in
        [(true, false, 0), (false, true, 0), (false, false, 8), (false, false, u64::MAX)]
    {
        let (mut b, mut m, d) = setup(ro, fail);
        submit(&mut b, &mut m, T_OUT, sector, 512).unwrap();
        assert_eq!(status(&mut m), 1);
        assert!(d.0.data.borrow().iter().all(|v| *v == 0));
    }
}

#[test]
fn negotiation_rejects_unknown_and_missing_version() {
    let (mut b, mut m, _) = setup(false, false);
    b.write(0x70, 0, &mut m).unwrap();
    b.write(0x70, 3, &mut m).unwrap();
    b.write(0x20, 1, &mut m).unwrap();
    b.write(0x70, 11, &mut m).unwrap();
    assert_eq!(b.status & 8, 0);
    assert!(b.write(0x70, 15, &mut m).is_err());
}

#[test]
fn malformed_chain_rejected() {
    let (mut b, mut m, _) = setup(false, false);
    put_descriptor(&mut m, 0x1000, Descriptor::new(0x4000, 16, 1, 0));
    put(&mut m, 0x2002, &1u16.to_le_bytes());
    assert!(b.write(0x50, 0, &mut m).is_err());
    let (mut b, mut m, _) = setup(false, false);
    put_descriptor(&mut m, 0x1000, Descriptor::new(u64::MAX, 16, 1, 1));
    put_descriptor(&mut m, 0x1010, Descriptor::new(0x6000, 1, 2, 0));
    put(&mut m, 0x2002, &1u16.to_le_bytes());
    assert!(b.write(0x50, 0, &mut m).is_err());
}

#[test]
fn get_id_unsupported_and_write_through() {
    let (mut b, mut m, d) = setup(false, false);
    submit(&mut b, &mut m, T_GET_ID, 0, 20).unwrap();
    assert_eq!(m.peek(0x5000, 20).unwrap(), b"w-vmm-data-000000001");
    assert_eq!(status(&mut m), 0);
    assert_eq!(get32(&mut m, 0x3008), 21);
    submit(&mut b, &mut m, 0xffff, 0, 0).unwrap();
    assert_eq!(status(&mut m), 2);
    b.queues.negotiated &= !F_FLUSH;
    submit(&mut b, &mut m, T_OUT, 0, 512).unwrap();
    assert_eq!(d.0.flushes.get(), 1);
}

#[test]
fn rejects_indirect_and_avail_overrun() {
    let (mut b, mut m, _) = setup(false, false);
    put_descriptor(&mut m, 0x1000, Descriptor::new(0x7000, 32, 4, 0));
    put(&mut m, 0x2002, &1u16.to_le_bytes());
    let e = b.write(0x50, 0, &mut m).unwrap_err();
    assert!(format!("{e:?}").to_lowercase().contains("indirect"));
    let (mut b, mut m, _) = setup(false, false);
    put(&mut m, 0x2002, &9u16.to_le_bytes());
    let e = b.write(0x50, 0, &mut m).unwrap_err();
    assert!(format!("{e:?}").to_lowercase().contains("overrun"));
}

#[test]
fn named_disks_keep_io_status_and_interrupts_independent() {
    let (mut a, mut ma, da) = setup(false, false);
    let (mut b, mut mb, db) = setup(true, false);
    a.device = Block::new("sda".to_owned(), da.clone()).unwrap();
    b.device = Block::new("sdb".to_owned(), db.clone()).unwrap();
    put(&mut ma, 0x5000, &[0x33; 512]);
    submit(&mut a, &mut ma, T_OUT, 0, 512).unwrap();
    assert!(a.interrupt_pending());
    assert!(!b.interrupt_pending());
    assert_eq!(status(&mut ma), 0);
    assert_eq!(da.0.data.borrow()[0], 0x33);
    assert_eq!(db.0.data.borrow()[0], 0);
    submit(&mut b, &mut mb, T_OUT, 0, 512).unwrap();
    assert_eq!(status(&mut mb), 1);
    a.write(0x70, 0, &mut ma).unwrap();
    assert!(b.interrupt_pending());
    submit(&mut b, &mut mb, T_GET_ID, 0, 20).unwrap();
    let id = mb.peek(0x5000, 20).unwrap();
    assert_eq!(&id[..3], b"sdb");
    assert_eq!(&id[3..], &[0; 17]);
    for name in ["", "too-long-disk-name-123", "a/b", "磁盘"] {
        assert!(Block::new(name.to_owned(), da.clone()).is_err());
    }
    let boxed: Box<Disk> = Box::new(da);
    assert!(Block::new("boxed".to_owned(), boxed).is_ok());
}

#[test]
fn split_header_and_payload_cross_regions_reach_backend_directly() {
    let disk = disk(false, false);
    let mut b = Block::new("scatter".to_owned(), disk.clone()).unwrap();
    let mut mem = memory(&[(0, 0x6000), (0x6000, 0x2000)]);
    let desc = [
        Descriptor::new(0x4000, 7, 0, 0),
        Descriptor::new(0x4100, 9, 0, 0),
        Descriptor::new(0, 0, 0, 0),
        Descriptor::new(0x5f80, 512, 0, 0),
        Descriptor::new(0x7000, 1, 2, 0),
    ];
    put(&mut mem, 0x4000, &T_OUT.to_le_bytes());
    put(&mut mem, 0x5f80, &[0x55; 512]);
    assert_eq!(b.request(&mut mem, &desc, F_FLUSH).unwrap(), 1);
    assert_eq!(*disk.0.addresses.borrow(), [(0x5f80, 128), (0x6000, 384)]);
    assert_eq!(&disk.0.data.borrow()[..512], &[0x55; 512]);
    let mut read_desc = desc;
    read_desc[3] = Descriptor::new(0x5f80, 512, 2, 0);
    put(&mut mem, 0x4000, &T_IN.to_le_bytes());
    assert_eq!(b.request(&mut mem, &read_desc, 0).unwrap(), 513);
    disk.0.partial.set(true);
    assert_eq!(b.request(&mut mem, &read_desc, 0).unwrap(), 1);
    assert_eq!(mem.peek(0x7000, 1).unwrap(), [S_IOERR]);
    assert_eq!(mem.peek(0x5f80, 1).unwrap(), [0x99]);
    disk.0.addresses.borrow_mut().clear();
    read_desc[3] = Descriptor::new(0x7fff, 512, 2, 0);
    assert!(b.request(&mut mem, &read_desc, 0).is_err());
    assert!(disk.0.addresses.borrow().is_empty());
}

#[test]
fn commands_and_their_refusals() {
    let data = [Descriptor::new(0x1000, 512, 0, 0)];
    let into = [Descriptor::new(0x1000, 512, 2, 0)];
    assert!(matches!(command(T_OUT, 2, 512, &data, F_FLUSH, false, 4096), Ok(Command::Write { offset: 1024, through: false })));
    assert!(matches!(command(T_OUT, 2, 512, &data, 0, false, 4096), Ok(Command::Write { offset: 1024, through: true })));
    assert!(matches!(command(T_IN, 7, 512, &into, 0, true, 4096), Ok(Command::Read { offset: 3584 })));
    assert!(matches!(command(T_IN, 0, 512, &data, 0, false, 4096), Err(DeviceError::BlockDescriptorDirectionMismatch)));
    assert!(matches!(command(T_OUT, 0, 511, &data, 0, false, 4096), Err(DeviceError::UnalignedBlockRequest { length: 511 })));
    assert!(matches!(command(T_OUT, 0, 512, &data, 0, true, 4096), Err(DeviceError::WriteToReadOnlyDisk)));
    assert!(matches!(command(T_OUT, u64::MAX, 512, &data, 0, false, 4096), Err(DeviceError::SectorOverflow { sector: u64::MAX })));
    assert!(matches!(command(T_OUT, 8, 512, &data, 0, false, 4096), Err(DeviceError::Storage(StorageError::OutOfBounds { size: 4096, offset: 4096, len: 512 }))));
    assert!(matches!(command(T_FLUSH, 0, 0, &[], F_FLUSH, false, 4096), Ok(Command::Flush)));
    assert!(matches!(command(T_FLUSH, 0, 0, &[], 0, false, 4096), Err(DeviceError::InvalidFlush)));
    assert!(matches!(command(T_FLUSH, 0, 512, &data, F_FLUSH, false, 4096), Err(DeviceError::InvalidFlush)));
    assert!(matches!(command(T_GET_ID, 0, 20, &into, 0, false, 4096), Ok(Command::Identify)));
    assert!(matches!(command(T_GET_ID, 0, 19, &into, 0, false, 4096), Err(DeviceError::InvalidGetId)));
    assert!(matches!(command(11, 0, 0, &[], 0, false, 4096), Ok(Command::Unsupported)));
    assert_eq!((S_OK, S_IOERR, S_UNSUPP), (0, 1, 2));
}

#[test]
fn chains_that_are_no_requests() {
    let disk = disk(false, false);
    let mut b = Block::new("d".to_owned(), disk.clone()).unwrap();
    let mut mem = memory(&[(0, 0x10000)]);
    let header = Descriptor::new(0x4000, 16, 0, 0);
    let last = Descriptor::new(0x6000, 1, 2, 0);
    assert!(matches!(b.request(&mut mem, &[last], 0), Err(DeviceError::TruncatedBlockDescriptorChain)));
    let readable = Descriptor::new(0x6000, 1, 0, 0);
    assert!(matches!(b.request(&mut mem, &[header, readable], 0), Err(DeviceError::InvalidBlockHeaderStatus)));
    let short = Descriptor::new(0x4000, 15, 0, 0);
    assert!(matches!(b.request(&mut mem, &[short, last], 0), Err(DeviceError::InvalidBlockHeaderStatus)));
    let writable = Descriptor::new(0x4000, 16, 2, 0);
    assert!(matches!(b.request(&mut mem, &[writable, last], 0), Err(DeviceError::InvalidBlockHeaderStatus)));
    let mut big = memory(&[(0, 0x20_0000)]);
    let huge = Descriptor::new(0x5000, 0x10_0001, 0, 0);
    assert!(matches!(
        b.request(&mut big, &[header, huge, last], 0),
        Err(DeviceError::BlockRequestTooLarge { length: 0x10_0001, limit: 0x10_0000 })
    ));
    let outside = Descriptor::new(0xffff, 512, 0, 0);
    assert!(matches!(b.request(&mut mem, &[header, outside, last], 0), Err(DeviceError::GuestAccess)));
    assert!(disk.0.addresses.borrow().is_empty());
}

#[test]
fn read_only_disks_offer_it_and_report_their_size() {
    let b = Mmio::new(Block::new("d".to_owned(), disk(true, false)).unwrap());
    assert_eq!(b.device.features(), F_FLUSH | F_RO);
    assert_eq!(b.read(0x100, 8), 8);
    assert_eq!(b.read(0x100, 4), 8);
    assert_eq!(b.read(8, 4), 2);
    let b = Mmio::new(Block::new("d".to_owned(), disk(false, false)).unwrap());
    assert_eq!(b.device.features(), F_FLUSH);
    assert_eq!(b.read(0x10, 4), F_FLUSH);
}

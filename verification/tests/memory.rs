//! virtio-mem: targets, requests, transactions and rollback.
use std::collections::BTreeSet;
use std::sync::{Arc, Weak};
use vm_memory::{Bytes, GuestRegionMmap, MemoryRegionAddress};
use w_vmm::boot::{validate_ipa_range, RAM};
use w_vmm::devices::mmio::{Mmio, VirtioDevice};
use w_vmm::error::{Failure, MemoryError};
use w_vmm::guest::{Guest, Ram, Region};
use w_vmm::memory::{
    mib_bytes, Mapper, MemoryControl, MemoryLifecycle, MemoryStatus, VirtioMem, HOTPLUG_BLOCK_MIB,
    MIB,
};
use w_vmm::ring::Descriptor;

const H: u64 = HOTPLUG_BLOCK_MIB;
const BLOCK_MIB: u64 = 2;
const BLOCK: u64 = BLOCK_MIB * MIB;

#[derive(Default)]
struct Fake {
    mapped: BTreeSet<u64>,
    calls: usize,
    fail: Vec<usize>,
}

fn injected(message: &str) -> MemoryError {
    MemoryError::Backend(Failure { chain: vec![message.to_owned()] })
}

impl Mapper for Fake {
    fn map(&mut self, r: &Region) -> Result<(), MemoryError> {
        self.calls += 1;
        if self.fail.contains(&self.calls) {
            return Err(injected("injected map failure"));
        }
        assert!(self.mapped.insert(r.start()));
        Ok(())
    }

    fn unmap(&mut self, r: &Region) -> Result<(), MemoryError> {
        self.calls += 1;
        if self.fail.contains(&self.calls) {
            return Err(injected("injected unmap failure"));
        }
        assert!(self.mapped.remove(&r.start()));
        Ok(())
    }
}

/// Puts the region behind `base_mib` of base memory.
fn attach(d: &mut VirtioMem, c: &MemoryControl, base_mib: u64) -> Result<(), MemoryError> {
    let end = RAM
        .checked_add(mib_bytes(base_mib)?)
        .and_then(|a| a.checked_next_multiple_of(d.alignment()))
        .ok_or(MemoryError::HotplugOverflow)?;
    d.attach_at(end, c)
}

fn view() -> Guest {
    Guest::new(vec![Ram::new(0, 0x10000).unwrap()]).unwrap().1
}

fn setup() -> (VirtioMem, MemoryControl, Guest, Fake) {
    let mut d = VirtioMem::new(H, BLOCK_MIB).unwrap();
    let mut c = d.control();
    c.set_requested_mib(H).unwrap();
    attach(&mut d, &c, 512).unwrap();
    (d, c, view(), Fake::default())
}

fn req(kind: u16, addr: u64, count: u16) -> [u8; 24] {
    let mut bytes = [0; 24];
    bytes[..2].copy_from_slice(&kind.to_le_bytes());
    bytes[8..16].copy_from_slice(&addr.to_le_bytes());
    bytes[16..18].copy_from_slice(&count.to_le_bytes());
    bytes
}

fn none() -> Vec<(u64, u64)> {
    Vec::new()
}

#[test]
fn capacity_and_lifecycle() {
    for size in [0, 1, H + 1, u64::MAX, (u64::MAX / H) * H] {
        assert!(VirtioMem::new(size, BLOCK_MIB).is_err());
    }
    let mut max = VirtioMem::new(16384, BLOCK_MIB).unwrap();
    let c = max.control();
    attach(&mut max, &c, 32768).unwrap();
    validate_ipa_range(max.start, max.capacity, 36).unwrap();
    let mut d = VirtioMem::new(H, BLOCK_MIB).unwrap();
    let mut c = d.control();
    assert_eq!(
        c.status(),
        MemoryStatus {
            region_size_mib: H,
            block_size_mib: BLOCK_MIB,
            requested_size_mib: 0,
            plugged_size_mib: 0,
            driver_ready: false,
            lifecycle: MemoryLifecycle::Created,
        }
    );
    assert!(c.set_requested_mib(3).is_err());
    assert!(c.set_requested_mib(2 * H).is_err());
    for n in 0..32 {
        c.set_requested_mib((n % 2) * H).unwrap();
    }
    c.set_requested_mib(H).unwrap();
    assert!(attach(&mut d, &c, u64::MAX).is_err());
    attach(&mut d, &c, 128 * H + 1).unwrap();
    assert_eq!(d.start, 0x4000_0000u64 + 129 * H * MIB);
    assert_eq!(d.start % (H * MIB), 0);
    assert_eq!(d.requested, H * MIB);
    d.start(&mut c);
    assert_eq!(c.status().lifecycle, MemoryLifecycle::Running);
    assert!(d.stop(&mut c, &mut Fake::default()).is_empty());
    assert_eq!(c.status().lifecycle, MemoryLifecycle::Stopped);
    assert!(c.set_requested_mib(0).is_err());
    let unused = VirtioMem::new(H, BLOCK_MIB).unwrap();
    let mut c = unused.control();
    unused.discard(&mut c);
    assert_eq!(c.status().lifecycle, MemoryLifecycle::Stopped);
}

#[test]
fn region_address_boundaries() {
    let mut d = VirtioMem::new(2 * H, BLOCK_MIB).unwrap();
    let mut c = d.control();
    for target in [0, H, 2 * H] {
        c.set_requested_mib(target).unwrap();
    }
    for target in [1, H - 1, H + 1, 3 * H, u64::MAX] {
        assert!(c.set_requested_mib(target).is_err());
        assert_eq!(c.status().requested_size_mib, 2 * H);
    }
    let limit = 1u64 << 36;
    let base_mib = (limit - 0x4000_0000u64 - d.capacity) / MIB;
    attach(&mut d, &c, base_mib).unwrap();
    validate_ipa_range(d.start, d.capacity, 36).unwrap();
    attach(&mut d, &c, base_mib + 1).unwrap();
    assert!(validate_ipa_range(d.start, d.capacity, 36).is_err()); // Include the alignment gap.
    assert!(attach(&mut d, &c, u64::MAX / MIB).is_err()); // Base end.
    assert!(attach(&mut d, &c, (u64::MAX - 0x4000_0000u64) / MIB).is_err()); // Alignment.
    let capacity = (u64::MAX / (H * MIB)) * H;
    let mut huge = VirtioMem::new(capacity, BLOCK_MIB).unwrap();
    let c = huge.control();
    assert!(attach(&mut huge, &c, H).is_err()); // Region end.
}

#[test]
fn large_sparse_region_grows_and_reclaims_allocations() {
    let mut d = VirtioMem::new(32768, BLOCK_MIB).unwrap();
    let mut c = d.control();
    attach(&mut d, &c, 512).unwrap();
    let mut view = view();
    let mut mapper = Fake::default();
    let mut allocations: Vec<Weak<GuestRegionMmap<()>>> = Vec::new();
    for target in [0, H, 2 * H, H, 0] {
        c.set_requested_mib(target).unwrap();
        let blocks = target * MIB / BLOCK;
        let old = d.blocks.count() as u64;
        if blocks != old {
            let (kind, first, count) = if blocks > old {
                (0, old, blocks - old)
            } else {
                (1, blocks, old - blocks)
            };
            let r = req(kind, d.start + first * BLOCK, count.try_into().unwrap());
            assert_eq!(d.request(&r, &mut c, &mut mapper, &mut view, &none()).unwrap().0, 0);
            for i in 0..blocks {
                let region = d.blocks.share(d.start + i * BLOCK).unwrap();
                allocations.push(Arc::downgrade(region.backing()));
            }
        }
        assert_eq!(d.blocks.count() as u64, blocks);
        assert_eq!(mapper.mapped.len() as u64, blocks);
        let seen = (0..16384).filter(|i| view.check_range(d.start + i * BLOCK, 1)).count() as u64;
        assert_eq!(seen, blocks);
        assert_eq!(c.status().plugged_size_mib, target);
    }
    assert!(allocations.iter().all(|r| r.upgrade().is_none()));
}

#[test]
fn rollback_allocations_live_through_vm_teardown() {
    let (mut d, mut c, mut view, mut mapper) = setup();
    mapper.fail = vec![2, 3];
    let a = d.start;
    assert!(d.request(&req(0, a, 2), &mut c, &mut mapper, &mut view, &none()).is_err());
    assert_eq!(d.blocks.count(), 0);
    assert_eq!(c.status().plugged_size_mib, 0);
    assert!(!view.check_range(a, 1));
    let allocations: Vec<_> = d.retained.iter().map(|r| Arc::downgrade(r.backing())).collect();
    assert!(!allocations.is_empty());
    // Simulate failed final unmaps, then destruction of the platform mapping state.
    mapper.fail.extend([4, 5]);
    assert!(!d.stop(&mut c, &mut mapper).is_empty());
    assert!(allocations.iter().all(|r| r.upgrade().is_some()));
    drop(mapper);
    drop(view);
    assert!(allocations.iter().all(|r| r.upgrade().is_some()));
    drop(d);
    assert!(allocations.iter().all(|r| r.upgrade().is_none()));
}

#[test]
fn requests_state_target_reset_and_holes() {
    let (mut d, mut c, mut view, mut mapper) = setup();
    let a = d.start;
    let mut ask = |d: &mut VirtioMem,
                   c: &mut MemoryControl,
                   view: &mut Guest,
                   r: [u8; 24],
                   pins: Vec<(u64, u64)>| {
        d.request(&r, c, &mut mapper, view, &pins).unwrap()
    };
    assert_eq!(ask(&mut d, &mut c, &mut view, req(3, a, 2), none()), (0, 1));
    assert_eq!(ask(&mut d, &mut c, &mut view, req(0, a, 1), none()).0, 0);
    assert_eq!(ask(&mut d, &mut c, &mut view, req(0, a, 1), none()).0, 3);
    assert_eq!(ask(&mut d, &mut c, &mut view, req(3, a, 2), none()), (0, 2));
    assert!(!view.check_range(a + BLOCK - 8, 16));
    assert_eq!(ask(&mut d, &mut c, &mut view, req(0, a + BLOCK, 1), none()).0, 0);
    assert!(view.check_range(a + BLOCK - 8, 16));
    assert!(view.poke(a + BLOCK - 8, &[42; 16]));
    d.reset().unwrap();
    assert_eq!(view.peek(a + BLOCK - 8, 16).unwrap(), [42; 16]);
    assert_eq!(ask(&mut d, &mut c, &mut view, req(3, a, 2), none()), (0, 0));
    assert_eq!(ask(&mut d, &mut c, &mut view, req(1, a, 1), vec![(a + 16, 4)]).0, 2);
    assert_eq!(ask(&mut d, &mut c, &mut view, req(1, a, 1), none()).0, 0);
    assert_eq!(ask(&mut d, &mut c, &mut view, req(1, a, 2), none()).0, 3);
    c.set_requested_mib(0).unwrap();
    assert_eq!(ask(&mut d, &mut c, &mut view, req(0, a, 1), none()).0, 1);
    assert_eq!(ask(&mut d, &mut c, &mut view, req(2, u64::MAX, 0), none()).0, 0);
    assert!(mapper.mapped.is_empty());
    assert_eq!(c.status().plugged_size_mib, 0);
}

#[test]
fn invalid_requests() {
    let (mut d, mut c, mut view, mut mapper) = setup();
    let a = d.start;
    for (kind, addr, n) in [
        (0, a, 0),
        (0, a + 1, 1),
        (0, a - BLOCK, 1),
        (0, a + H * MIB, 1),
        (0, u64::MAX, 2),
        (7, a, 1),
    ] {
        let r = req(kind, addr, n);
        assert_eq!(d.request(&r, &mut c, &mut mapper, &mut view, &none()).unwrap().0, 3);
    }
}

#[test]
fn transactional_map_and_unmap_failure() {
    let (mut d, mut c, mut view, mut mapper) = setup();
    let a = d.start;
    mapper.fail = vec![2];
    assert_eq!(d.request(&req(0, a, 2), &mut c, &mut mapper, &mut view, &none()).unwrap().0, 2);
    assert_eq!(d.blocks.count(), 0);
    assert!(mapper.mapped.is_empty());
    mapper.fail.clear();
    d.request(&req(0, a, 2), &mut c, &mut mapper, &mut view, &none()).unwrap();
    assert!(view.poke(a, &[91]));
    mapper.fail = vec![mapper.calls + 2];
    assert_eq!(d.request(&req(1, a, 2), &mut c, &mut mapper, &mut view, &none()).unwrap().0, 2);
    assert_eq!(d.blocks.count(), 2);
    assert_eq!(mapper.mapped.len(), 2);
    assert_eq!(view.peek(a, 1).unwrap(), [91]);
    mapper.fail = vec![mapper.calls + 2, mapper.calls + 3];
    let e = d.request(&req(1, a, 2), &mut c, &mut mapper, &mut view, &none()).unwrap_err();
    assert!(matches!(e, MemoryError::RollbackFailed { .. }));
    assert_eq!(d.retained.len(), 2);
}

fn initialize(device: &mut Mmio<VirtioMem>, mem: &mut Guest) {
    for (offset, value) in [
        (0x70, 1),
        (0x70, 3),
        (0x24, 1),
        (0x20, 1),
        (0x24, 0),
        (0x20, device.features as u32),
        (0x70, 11),
        (0x30, 0),
        (0x38, 8),
        (0x80, 0x1000),
        (0x90, 0x2000),
        (0xa0, 0x3000),
        (0x44, 1),
        (0x70, 15),
    ] {
        device.write(offset, value, mem).unwrap();
    }
}

fn put_descriptor(m: &mut Guest, at: u64, d: Descriptor) {
    assert!(m.poke(at, &d.addr.to_le_bytes()));
    assert!(m.poke(at + 8, &d.len.to_le_bytes()));
    assert!(m.poke(at + 12, &d.flags.to_le_bytes()));
    assert!(m.poke(at + 14, &d.next.to_le_bytes()));
}

#[test]
fn negotiation_generation_and_queue_response() {
    let (mut d, mut c, mut view, mut mapper) = setup();
    c.set_requested_mib(0).unwrap();
    attach(&mut d, &c, 512).unwrap();
    let a = d.start;
    let mut mmio = Mmio::new(d);
    mmio.write(0x24, 1, &mut view).unwrap();
    mmio.write(0x20, 1, &mut view).unwrap();
    mmio.write(0x70, 11, &mut view).unwrap();
    assert_eq!(mmio.read(0x70, 4) & 8, 0);
    mmio.write(0x70, 0, &mut view).unwrap();
    initialize(&mut mmio, &mut view);
    c.set_requested_mib(H).unwrap();
    assert!(mmio.device.sync_target(true, &mut c));
    mmio.config_changed();
    assert_eq!(mmio.read(0xfc, 4), 1);
    assert_eq!(mmio.read(0x60, 4), 2);
    assert!(c.status().driver_ready);
    put_descriptor(&mut view, 0x1000, Descriptor::new(0x8000, 24, 1, 1));
    put_descriptor(&mut view, 0x1010, Descriptor::new(0x9000, 10, 2, 0));
    assert!(view.poke(0x8000, &req(0, a, 2)));
    assert!(view.poke(0x2002, &1u16.to_le_bytes()));
    let pins = mmio.queues.pinned(&mut view).unwrap();
    mmio.device.process(&mut mmio.queues, &mut c, &mut mapper, &mut view, &pins).unwrap();
    assert_eq!(view.peek(0x9000, 2).unwrap(), [0, 0]);
    assert_eq!(mmio.device.blocks.count(), 2);
    assert_eq!(mmio.read(0x128, 8), 2 * BLOCK);
    mmio.write(0x70, 0, &mut view).unwrap();
    assert_eq!(mmio.device.blocks.count(), 2);
    mmio.device.publish(&mut c);
    assert!(!c.status().driver_ready);
}

#[test]
fn sizes_and_targets_report_their_errors() {
    assert!(matches!(VirtioMem::new(H, 3), Err(MemoryError::InvalidBlockSize { mib: 3 })));
    assert!(matches!(VirtioMem::new(0, 2), Err(MemoryError::InvalidRegionSize { mib: 0 })));
    assert!(matches!(VirtioMem::new(128, 256), Err(MemoryError::InvalidRegionSize { mib: 128 })));
    let most = (u64::MAX / H) * H;
    assert!(matches!(VirtioMem::new(most, 2), Err(MemoryError::CapacityOverflow { mib }) if mib == most));
    let mut d = VirtioMem::new(256, 256).unwrap();
    assert_eq!(d.alignment(), 256 * MIB);
    let mut c = d.control();
    assert!(matches!(
        c.set_requested_mib(128),
        Err(MemoryError::InvalidTarget { requested: 128, capacity: 256, block_size_mib: 256 })
    ));
    assert!(matches!(d.attach_at(128 * MIB, &c), Err(MemoryError::HotplugAlignment { .. })));
    assert!(matches!(d.attach_at(u64::MAX - 256 * MIB + 1, &c), Err(MemoryError::HotplugOverflow)));
    c.stop();
    assert!(matches!(c.set_requested_mib(0), Err(MemoryError::Stopped)));
}

#[test]
fn plugged_memory_is_mapped_and_only_that() {
    let (mut d, mut c, mut view, mut mapper) = setup();
    let a = d.start;
    d.request(&req(0, a + BLOCK, 3), &mut c, &mut mapper, &mut view, &none()).unwrap();
    assert_eq!(mapper.mapped, BTreeSet::from([a + BLOCK, a + 2 * BLOCK, a + 3 * BLOCK]));
    assert!(!view.check_range(a, 1));
    assert!(view.check_range(a + BLOCK, 3 * BLOCK as usize));
    assert!(!view.check_range(a + 4 * BLOCK, 1));
    d.request(&req(2, 0, 0), &mut c, &mut mapper, &mut view, &none()).unwrap();
    assert!(mapper.mapped.is_empty());
    assert!(!view.check_range(a + BLOCK, 1));
}

#[test]
fn unplug_undoes_plug() {
    for all in [false, true] {
        let (mut d, mut c, mut view, mut mapper) = setup();
        let a = d.start;
        if !all {
            let r = req(0, a + 8 * BLOCK, 1);
            d.request(&r, &mut c, &mut mapper, &mut view, &none()).unwrap();
        }
        let kept = d.blocks.share(a + 8 * BLOCK).map(|r| r.backing().clone());
        let (mapped, status) = (mapper.mapped.clone(), c.status());
        assert_eq!(d.request(&req(0, a, 2), &mut c, &mut mapper, &mut view, &none()).unwrap(), (0, 0));
        let r = if all { req(2, 0, 0) } else { req(1, a, 2) };
        let pins = vec![(a + BLOCK, 1)];
        assert_eq!(d.request(&r, &mut c, &mut mapper, &mut view, &pins).unwrap(), (2, 0));
        assert_eq!(mapper.mapped.len(), mapped.len() + 2);
        assert_eq!(d.request(&r, &mut c, &mut mapper, &mut view, &none()).unwrap(), (0, 0));
        assert_eq!((mapper.mapped, c.status()), (mapped, status));
        assert!(!view.check_range(a, 1) && !view.check_range(a + BLOCK, 1));
        let left = d.blocks.share(a + 8 * BLOCK).map(|r| r.backing().clone());
        assert_eq!(left.is_some(), !all);
        assert!(left.iter().zip(&kept).all(|(l, k)| Arc::ptr_eq(l, k)));
    }
}

#[test]
fn the_same_allocation_is_mapped_and_seen() {
    let (mut d, mut c, mut view, mut mapper) = setup();
    let a = d.start;
    d.request(&req(0, a, 1), &mut c, &mut mapper, &mut view, &none()).unwrap();
    assert!(view.poke(a + 5, &[17]));
    let region = d.blocks.share(a).unwrap();
    let mut byte = [0];
    region.backing().read_slice(&mut byte, MemoryRegionAddress(5)).unwrap();
    assert_eq!(byte, [17]);
}

#[test]
fn plugs_stay_within_the_target() {
    let (mut d, mut c, mut view, mut mapper) = setup();
    let (a, target) = (d.start, H / 2);
    c.set_requested_mib(target).unwrap();
    let blocks = (target * 1024 * 1024 / BLOCK) as u16;
    let over = req(0, a, blocks + 1);
    assert_eq!(d.request(&over, &mut c, &mut mapper, &mut view, &none()).unwrap(), (1, 0));
    assert_eq!(c.status().plugged_size_mib, 0);
    let all = req(0, a, blocks);
    assert_eq!(d.request(&all, &mut c, &mut mapper, &mut view, &none()).unwrap(), (0, 0));
    assert_eq!(c.status().plugged_size_mib, target);
    let more = req(0, a + blocks as u64 * BLOCK, 1);
    assert_eq!(d.request(&more, &mut c, &mut mapper, &mut view, &none()).unwrap(), (1, 0));
    assert_eq!((c.status().plugged_size_mib, mapper.mapped.len()), (target, blocks as usize));
}

/// Maps a block over another one, as a host may.
#[derive(Default)]
struct Forgetful {
    maps: usize,
    stopping: bool,
    unmapped: Vec<Region>,
}

impl Mapper for Forgetful {
    fn map(&mut self, _: &Region) -> Result<(), MemoryError> {
        self.maps += 1;
        if self.maps % 2 == 0 {
            return Err(injected("injected map failure"));
        }
        Ok(())
    }

    fn unmap(&mut self, r: &Region) -> Result<(), MemoryError> {
        if !self.stopping {
            return Err(injected("injected unmap failure"));
        }
        self.unmapped.push(r.share());
        Ok(())
    }
}

#[test]
fn the_latest_retained_block_is_unmapped() {
    let (mut d, mut c, mut view, _) = setup();
    let mut mapper = Forgetful::default();
    let a = d.start;
    for _ in 0..2 {
        assert!(matches!(
            d.request(&req(0, a, 2), &mut c, &mut mapper, &mut view, &none()),
            Err(MemoryError::RollbackFailed { .. })
        ));
    }
    assert_eq!(d.retained.len(), 4);
    mapper.stopping = true;
    assert!(d.stop(&mut c, &mut mapper).is_empty());
    assert_eq!(mapper.unmapped.len(), 2);
    for (i, r) in mapper.unmapped.iter().enumerate() {
        assert_eq!(r.start(), a + i as u64 * BLOCK);
        assert!(Arc::ptr_eq(r.backing(), d.retained[2 + i].backing()));
    }
}

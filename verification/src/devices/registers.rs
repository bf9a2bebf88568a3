//! What a driver finds in the registers of a device, and what it brings about by
//! writing them.
use crate::devices::block::Block;
use crate::devices::memory::{attached, synced, MemView, VirtioMem};
use crate::devices::mmio::{configured, running, window, write_rel, MmioView, VirtioDevice};
use crate::devices::net::{capacity_ok, mac_ok, net_config, Net};
use crate::devices::queues::QueuesView;
use crate::devices::Device;
use crate::error::{DeviceError, MemoryError};
use crate::guest::{covers, Memory};
use crate::memory::MemoryStatus;
use crate::net::NetDevice;
use crate::ring::{moved, with_high, with_low, Ring};
use crate::storage::BlockStorage;
use vstd::prelude::*;

verus! {

/// The byte of a configuration at `offset`; behind its end there are zeros.
pub open spec fn config_byte(config: Seq<u8>, offset: int) -> int {
    if 0 <= offset < config.len() {
        config[offset] as int
    } else {
        0
    }
}

/// The number in `width` bytes of a configuration, the lowest byte first.
pub open spec fn config_number(config: Seq<u8>, offset: int, width: nat) -> int
    decreases width,
{
    if width == 0 {
        0
    } else {
        config_byte(config, offset) + 0x100 * config_number(config, offset + 1, (width - 1) as nat)
    }
}

/// A register of the configuration space is the number in its bytes, whatever
/// the width of the access, and two neighbours make up the one of twice their
/// width.
pub proof fn configuration_is_read_byte_by_byte<D: VirtioDevice>(
    s: MmioView<D>,
    offset: u64,
    width: int,
)
    requires
        width == 1 || width == 2 || width == 4 || width == 8,
        0x100 <= offset,
        offset + width <= 0x1000,
    ensures
        s.register(offset, width) == config_number(
            s.device.config(),
            offset - 0x100,
            width as nat,
        ),
        width == 1 || s.register(offset, width) == s.register(offset, width / 2) + (if width == 2 {
            0x100
        } else if width == 4 {
            0x1_0000
        } else {
            0x1_0000_0000int
        }) * s.register((offset + width / 2) as u64, width / 2),
{
    reveal_with_fuel(config_number, 9);
    let c = s.device.config();
    let o = offset - 0x100;
    let w = window(window(c, o, width), 0, 8);
    assert forall|i: int| 0 <= i < 8 implies #[trigger] w[i] as int == if i < width {
        config_byte(c, o + i)
    } else {
        0
    } by {}
    if width > 1 {
        let h = width / 2;
        let a = window(window(c, o, h), 0, 8);
        let b = window(window(c, o + h, h), 0, 8);
        assert forall|i: int| 0 <= i < 8 implies #[trigger] a[i] as int == if i < h {
            config_byte(c, o + i)
        } else {
            0
        } by {}
        assert forall|i: int| 0 <= i < 8 implies #[trigger] b[i] as int == if i < h {
            config_byte(c, o + h + i)
        } else {
            0
        } by {}
    }
}

/// The eight bytes of `v`, the lowest first.
proof fn lemma_number_of_bytes(prefix: Seq<u8>, v: u64, rest: Seq<u8>)
    ensures
        config_number(
            prefix + crate::bytes::le64_bytes(v) + rest,
            prefix.len() as int,
            8,
        ) == v,
{
    reveal_with_fuel(config_number, 9);
    let b = crate::bytes::le64_bytes(v);
    let c = prefix + b + rest;
    let n = prefix.len() as int;
    assert(b.len() == 8);
    assert(c[n] == b[0] && c[n + 1] == b[1] && c[n + 2] == b[2] && c[n + 3] == b[3]);
    assert(c[n + 4] == b[4] && c[n + 5] == b[5] && c[n + 6] == b[6] && c[n + 7] == b[7]);
    crate::bytes::decode_inverts_encode(0, 0, v);
}

/// The driver of dynamic memory learns from its configuration space how large a
/// block is, where the region starts and how large it is, all of which it may
/// use, how much is plugged, and how much is asked for.
pub proof fn guests_read_their_target(s: MmioView<VirtioMem>)
    ensures
        s.register(0x100, 8) == s.device@.block,
        s.register(0x108, 8) == 0,
        s.register(0x110, 8) == s.device@.start,
        s.register(0x118, 8) == s.device@.capacity,
        s.register(0x120, 8) == s.device@.capacity,
        s.register(0x128, 8) == s.device@.plugged,
        s.register(0x130, 8) == s.device@.requested,
        s.register(0xfc, 4) == s.device@.generation,
{
    let d = s.device@;
    let c = s.device.config();
    let le = |v: u64| crate::bytes::le64_bytes(v);
    let zeros = Seq::new(8, |i: int| 0u8);
    let none = Seq::<u8>::empty();
    assert(le(d.block).len() == 8 && le(d.start).len() == 8 && le(d.capacity).len() == 8);
    assert(le(d.plugged).len() == 8 && le(d.requested).len() == 8);
    let p0 = none;
    let p2 = le(d.block) + zeros;
    let p3 = p2 + le(d.start);
    let p4 = p3 + le(d.capacity);
    let p5 = p4 + le(d.capacity);
    let p6 = p5 + le(d.plugged);
    assert(c =~= p6 + le(d.requested) + none);
    assert(c =~= p5 + le(d.plugged) + le(d.requested));
    assert(c =~= p4 + le(d.capacity) + (le(d.plugged) + le(d.requested)));
    assert(c =~= p3 + le(d.capacity) + (le(d.capacity) + le(d.plugged) + le(d.requested)));
    assert(c =~= p2 + le(d.start) + (le(d.capacity) + le(d.capacity) + le(d.plugged) + le(
        d.requested,
    )));
    assert(c =~= p0 + le(d.block) + (zeros + le(d.start) + le(d.capacity) + le(d.capacity) + le(
        d.plugged,
    ) + le(d.requested)));
    lemma_number_of_bytes(p6, d.requested, none);
    lemma_number_of_bytes(p5, d.plugged, le(d.requested));
    lemma_number_of_bytes(p4, d.capacity, le(d.plugged) + le(d.requested));
    lemma_number_of_bytes(p3, d.capacity, le(d.capacity) + le(d.plugged) + le(d.requested));
    lemma_number_of_bytes(
        p2,
        d.start,
        le(d.capacity) + le(d.capacity) + le(d.plugged) + le(d.requested),
    );
    lemma_number_of_bytes(
        p0,
        d.block,
        zeros + le(d.start) + le(d.capacity) + le(d.capacity) + le(d.plugged) + le(d.requested),
    );
    configuration_is_read_byte_by_byte(s, 0x100, 8);
    configuration_is_read_byte_by_byte(s, 0x108, 8);
    configuration_is_read_byte_by_byte(s, 0x110, 8);
    configuration_is_read_byte_by_byte(s, 0x118, 8);
    configuration_is_read_byte_by_byte(s, 0x120, 8);
    configuration_is_read_byte_by_byte(s, 0x128, 8);
    configuration_is_read_byte_by_byte(s, 0x130, 8);
    reveal_with_fuel(config_number, 9);
    assert forall|i: int| 8 <= i < 16 implies c[i] == 0u8 by {
        assert(c[i] == p2[i]);
    }
}

/// After the target was taken over the driver reads the accepted one, in bytes.
/// That it changed is told exactly where the driver reads another value than
/// before, and then the generation it reads is another one too. Nothing else
/// that it reads changes.
#[verifier::rlimit(60)]
pub proof fn a_new_target_reaches_the_guest(
    s0: MmioView<VirtioMem>,
    status: MemoryStatus,
    ready: bool,
    s1: MmioView<VirtioMem>,
    r: bool,
)
    requires
        s0.device@.agrees(status),
        (s1.device@, r) == synced(s0.device@, status, ready),
    ensures
        s1.register(0x130, 8) == status.requested_size_mib * 0x10_0000,
        r <==> s1.register(0x130, 8) != s0.register(0x130, 8),
        r <==> s1.register(0xfc, 4) != s0.register(0xfc, 4),
        r ==> s1.register(0xfc, 4) == (s0.register(0xfc, 4) + 1) % 0x1_0000_0000,
        s1.register(0x100, 8) == s0.register(0x100, 8),
        s1.register(0x110, 8) == s0.register(0x110, 8),
        s1.register(0x118, 8) == s0.register(0x118, 8),
        s1.register(0x120, 8) == s0.register(0x120, 8),
        s1.register(0x128, 8) == s0.register(0x128, 8),
        s1.device@.ready == ready,
        s1.device@.blocks == s0.device@.blocks,
        s1.device@.table == s0.device@.table,
        s1.device@.retained == s0.device@.retained,
{
    lemma_synced(s0.device@, status, ready, s1.device@, r);
    guests_read_their_target(s0);
    guests_read_their_target(s1);
}

proof fn lemma_synced(d0: MemView, status: MemoryStatus, ready: bool, d1: MemView, r: bool)
    requires
        d0.agrees(status),
        (d1, r) == synced(d0, status, ready),
    ensures
        d1.requested == status.requested_size_mib * 0x10_0000,
        r <==> d1.requested != d0.requested,
        r ==> d1.generation == (d0.generation + 1) % 0x1_0000_0000,
        !r ==> d1.generation == d0.generation,
        d1 == (MemView {
            requested: d1.requested,
            generation: d1.generation,
            ready: d1.ready,
            ..d0
        }),
        d1.ready == ready,
{
    assert(status.requested_size_mib <= status.region_size_mib);
}

/// A region that was given its place starts there, on the alignment of dynamic
/// memory and of its own blocks, and ends below the last address; and the target
/// asked for before counts.
pub proof fn an_attached_region_has_its_place(
    s0: MmioView<VirtioMem>,
    start: u64,
    status: MemoryStatus,
    s1: MmioView<VirtioMem>,
    r: Result<(), MemoryError>,
)
    requires
        s0.device@.agrees(status),
        s0.device@.block > 0,
        (s1.device@, r) == attached(s0.device@, start, status),
    ensures
        r is Ok <==> start % 0x800_0000 == 0 && start % s0.device@.block == 0 && start
            + s0.device@.capacity <= u64::MAX,
        r is Err ==> s1.device@ == s0.device@,
        r is Ok ==> {
            &&& s1.register(0x110, 8) == start
            &&& s1.register(0x130, 8) == status.requested_size_mib * 0x10_0000
            &&& s1.register(0x100, 8) == s0.register(0x100, 8)
            &&& s1.register(0x118, 8) == s0.register(0x118, 8)
            &&& s1.register(0x128, 8) == s0.register(0x128, 8)
            &&& s1.device@.blocks == s0.device@.blocks
        },
{
    guests_read_their_target(s0);
    guests_read_their_target(s1);
    assert(status.requested_size_mib * 0x10_0000 <= u64::MAX) by {
        assert(status.requested_size_mib <= status.region_size_mib);
    }
    lemma_alignments(status.block_size_mib, start);
}

/// A power of two is a multiple of every smaller one.
proof fn lemma_alignments(block: u64, start: u64)
    requires
        crate::math::is_pow2(block as int),
        block * 0x10_0000 <= u64::MAX,
    ensures
        start % (crate::memory::granule_mib(block) * 0x10_0000) as u64 == 0 <==> start % 0x800_0000
            == 0 && start % (block * 0x10_0000) as u64 == 0,
{
    crate::devices::memory::lemma_granules(block, start);
}

/// What each kind of device is to its driver: its number, how many queues it
/// has, and what it offers. A disk can flush, and says where it cannot be
/// written; a network interface tells its address and its MTU; dynamic memory
/// insists on unplugged memory not being touched.
pub proof fn devices_are_what_they_say<BS: BlockStorage, ND: NetDevice>(d: Device<BS, ND>)
    ensures
        match d {
            Device::Block(b) => {
                &&& d.id_of() == 2 && d.queues_of() == 1 && d.required() == 0
                &&& d.offered() & 0x200 != 0
                &&& d.offered() & 0x20 != 0 <==> b.disk.sealed()
                &&& d.offered() & !0x220u64 == 0
                &&& d.config() == b.config() && d.generation_of() == 0
            },
            Device::Net(n) => {
                &&& d.id_of() == 1 && d.queues_of() == 2 && d.required() == 0
                &&& d.offered() & 0x20 != 0 && d.offered() & 0x8 != 0
                &&& d.offered() & !0x28u64 == 0
                &&& d.config() == n.config@ && d.generation_of() == 0
            },
            Device::Mem(m) => {
                &&& d.id_of() == 24 && d.queues_of() == 1
                &&& d.offered() == 2 && d.required() == 2
                &&& d.config() == m.config() && d.generation_of() == m.generation
            },
        },
{
    assert(0x200u64 & 0x200 != 0 && 0x200u64 & 0x20 == 0 && 0x200u64 & !0x220u64 == 0)
        by (bit_vector);
    assert((0x200u64 | 0x20) & 0x200 != 0 && (0x200u64 | 0x20) & 0x20 != 0 && (0x200u64 | 0x20)
        & !0x220u64 == 0) by (bit_vector);
    assert(0x28u64 & 0x20 != 0 && 0x28u64 & 8 != 0 && 0x28u64 & !0x28u64 == 0) by (bit_vector);
}

/// A driver of a disk reads its size in sectors of 512 bytes.
pub proof fn disks_tell_their_size<BS: BlockStorage>(s: MmioView<Block<BS>>)
    requires
        s.device.disk.capacity() % 512 == 0,
    ensures
        512 * s.register(0x100, 8) == s.device.disk.capacity(),
{
    configuration_is_read_byte_by_byte(s, 0x100, 8);
    let c = s.device.config();
    let v = (s.device.disk.capacity() / 512) as u64;
    let none = Seq::<u8>::empty();
    assert(c =~= none + crate::bytes::le64_bytes(v) + none);
    lemma_number_of_bytes(none, v, none);
}

/// A driver of a network interface reads its address, byte by byte, and its MTU;
/// a payload of that size fits into a frame that the backend takes, behind its
/// header. The address is one that a station can have.
pub proof fn interfaces_tell_their_address<ND: NetDevice>(
    s: MmioView<Net<ND>>,
    mac: Seq<u8>,
    mtu: u16,
    limit: usize,
    i: int,
)
    requires
        mac.len() == 6,
        s.device.config@ == net_config(mac, mtu),
        0 <= i < 6,
    ensures
        s.register((0x100 + i) as u64, 1) == mac[i],
        s.register(0x10a, 2) == mtu,
        capacity_ok(mtu, limit) <==> 68 <= mtu && 14 + mtu <= limit && limit < 0x1_0000 + 18,
        mac_ok(mac) <==> mac[0] & 1 == 0 && !(mac[0] == 0 && mac[1] == 0 && mac[2] == 0 && mac[3]
            == 0 && mac[4] == 0 && mac[5] == 0),
{
    reveal_with_fuel(config_number, 3);
    configuration_is_read_byte_by_byte(s, (0x100 + i) as u64, 1);
    configuration_is_read_byte_by_byte(s, 0x10a, 2);
    let c = s.device.config@;
    assert(c[i] == mac[i]);
    assert(c[10] == (mtu % 0x100) as u8 && c[11] == (mtu / 0x100) as u8);
    let b = mac[0];
    assert(b & 1 == b % 2) by (bit_vector);
}

/// Every device tells in the same places what it is, what it offers, how large
/// its queues may be, whether one is in use, what it wants attention for, and how
/// far the driver has come.
pub proof fn registers_tell_what_a_device_is<D: VirtioDevice>(s: MmioView<D>)
    ensures
        s.register(0, 4) == 0x76 + 0x100 * 0x69 + 0x1_0000 * 0x72 + 0x100_0000 * 0x74,
        s.register(4, 4) == 2,
        s.register(8, 4) == s.device.id_of(),
        s.feature_sel == 0 ==> s.register(0x10, 4) == s.features % 0x1_0000_0000,
        s.feature_sel == 1 ==> s.register(0x10, 4) == s.features / 0x1_0000_0000,
        s.feature_sel > 1 ==> s.register(0x10, 4) == 0,
        s.queue_sel < s.queues.rings.len() ==> s.register(0x34, 4) == 128,
        s.queue_sel >= s.queues.rings.len() ==> s.register(0x34, 4) == 0 && s.register(0x44, 4)
            == 0,
        s.queue_sel < s.queues.rings.len() ==> s.register(0x44, 4)
            == if s.queues.rings[s.queue_sel as int].ready {
            1int
        } else {
            0
        },
        s.register(0x60, 4) == s.queues.interrupt,
        s.interrupts() <==> s.register(0x60, 4) != 0,
        s.register(0x70, 4) == s.status,
        s.register(0xfc, 4) == s.device.generation_of(),
{
}

/// A device that was powered up offers what it can do and the current standard;
/// it wants nothing, its driver has not come, and none of its queues is in use.
pub proof fn devices_start_idle<D: VirtioDevice>(d: D, i: int)
    requires
        0 <= i < d.queues_of(),
    ensures
        ({
            let s = MmioView::powered_up(d);
            &&& s.device == d
            &&& s.features == d.offered() | 0x1_0000_0000
            &&& s.features & 0x1_0000_0000 != 0
            &&& s.register(0x60, 4) == 0 && s.register(0x70, 4) == 0
            &&& s.queues.negotiated == 0
            &&& s.queues.rings.len() == d.queues_of()
            &&& !s.queues.rings[i].ready && s.queues.rings[i].next_avail == 0
                && s.queues.rings[i].next_used == 0 && s.queues.rings[i].size == 128
        }),
{
    let f = d.offered();
    assert((f | 0x1_0000_0000) & 0x1_0000_0000 != 0) by (bit_vector);
}

/// The driver selects a half of the features, writes it, and so the other: then
/// the device knows all it asked for. Once the driver has confirmed them they
/// stay.
pub proof fn features_are_taken_in_halves<D: VirtioDevice>(
    s: MmioView<D>,
    low: u32,
    high: u32,
    regions: Seq<(u64, u64)>,
)
    ensures
        ({
            let a = s.written(0x24, 0, regions).0;
            let b = a.written(0x20, low, regions).0;
            let c = b.written(0x24, 1, regions).0;
            let e = c.written(0x20, high, regions).0;
            &&& s.status & 8 == 0 ==> e.queues.negotiated == low + 0x1_0000_0000 * high
            &&& s.status & 8 != 0 ==> e.queues.negotiated == s.queues.negotiated
            &&& e == (MmioView {
                driver_sel: 1,
                queues: QueuesView { negotiated: e.queues.negotiated, ..s.queues },
                ..s
            })
            &&& s.written(0x14, low, regions) == (
                MmioView { feature_sel: low, ..s },
                Ok::<(), DeviceError>(()),
            )
            &&& s.written(0x30, low, regions) == (
                MmioView { queue_sel: low, ..s },
                Ok::<(), DeviceError>(()),
            )
        }),
{
}

/// The driver goes on by setting bits, and never takes one back. Its features
/// are confirmed exactly where all were offered, the current standard is among
/// them, and those that the device insists on. It drives the device only after
/// that and with all of its queues in place.
pub proof fn drivers_come_up_in_order<D: VirtioDevice>(
    s: MmioView<D>,
    value: u32,
    regions: Seq<(u64, u64)>,
)
    requires
        value != 0,
    ensures
        ({
            let (t, r) = s.written(0x70, value, regions);
            let n = s.queues.negotiated;
            let good = n & !s.features == 0 && n & 0x1_0000_0000 != 0 && n & s.device.required()
                == s.device.required();
            let placed = forall|i: int|
                0 <= i < s.queues.rings.len() ==> {
                    let q = #[trigger] s.queues.rings[i];
                    &&& q.ready
                    &&& covers(regions, q.desc_table as int, 16 * q.size)
                    &&& covers(regions, q.avail_ring as int, 6 + 2 * q.size)
                    &&& covers(regions, q.used_ring as int, 6 + 8 * q.size)
                };
            &&& t == (MmioView { status: t.status, ..s })
            &&& value & s.status != s.status ==> t == s && r is Err
            &&& value & s.status == s.status ==> {
                &&& t.status == if value & 8 == 0 || good {
                    value
                } else {
                    value & !8
                }
                &&& r is Ok <==> value & 4 == 0 || (t.status & 0xb == 0xb && placed)
            }
        }),
{
    let n = s.queues.negotiated;
    let placed = forall|i: int|
        0 <= i < s.queues.rings.len() ==> {
            let q = #[trigger] s.queues.rings[i];
            &&& q.ready
            &&& covers(regions, q.desc_table as int, 16 * q.size)
            &&& covers(regions, q.avail_ring as int, 6 + 2 * q.size)
            &&& covers(regions, q.used_ring as int, 6 + 8 * q.size)
        };
    let valid = forall|i: int|
        0 <= i < s.queues.rings.len() ==> (#[trigger] s.queues.rings[i]).valid(regions);
    assert(placed == valid);
}

proof fn lemma_moved(a: u64, low: u32, high: u32, align: int)
    requires
        align == 16 || align == 2 || align == 4,
        a as int % align == 0,
        low % 16 == 0,
    ensures
        moved(a, with_low(a, low), align) == a - a % 0x1_0000_0000 + low,
        moved(a, with_high(a, high), align) == 0x1_0000_0000 * high + a % 0x1_0000_0000,
{
    let top = a as int / 0x1_0000_0000;
    assert(a - a % 0x1_0000_0000 == 0x1_0000_0000 * top);
    if align == 16 {
        assert((0x1_0000_0000 * top + low) % 16 == 0);
        assert((0x1_0000_0000 * high + a % 0x1_0000_0000) % 16 == 0);
    } else if align == 4 {
        assert((0x1_0000_0000 * top + low) % 4 == 0);
        assert((0x1_0000_0000 * high + a % 0x1_0000_0000) % 4 == 0);
    } else {
        assert((0x1_0000_0000 * top + low) % 2 == 0);
        assert((0x1_0000_0000 * high + a % 0x1_0000_0000) % 2 == 0);
    }
}

/// Setting the two halves of an address one after the other gives all of it.
proof fn lemma_moved_twice(a: u64, low: u32, high: u32, align: int)
    requires
        align == 16 || align == 2 || align == 4,
        a as int % align == 0,
        low % 16 == 0,
    ensures
        ({
            let b = moved(a, with_low(a, low), align);
            let c = moved(a, with_high(a, high), align);
            &&& moved(b, with_high(b, high), align) == low + 0x1_0000_0000 * high
            &&& moved(c, with_low(c, low), align) == low + 0x1_0000_0000 * high
        }),
{
    lemma_moved(a, low, high, align);
    let b = moved(a, with_low(a, low), align);
    let c = moved(a, with_high(a, high), align);
    let top = a as int / 0x1_0000_0000;
    assert(b as int % align == 0 && c as int % align == 0);
    lemma_moved(b, low, high, align);
    lemma_moved(c, low, high, align);
    assert(b as int % 0x1_0000_0000 == low);
    assert(c as int - c as int % 0x1_0000_0000 == 0x1_0000_0000 * high);
}

/// Each address of a ring is set in two halves.
#[verifier::rlimit(40)]
proof fn lemma_halves(q: Ring, x: u64, y: u64, low: u32, high: u32, regions: Seq<(u64, u64)>)
    requires
        (x == 0x80 && y == 0x84) || (x == 0x90 && y == 0x94) || (x == 0xa0 && y == 0xa4),
        q.wf(),
        !q.ready,
        low % 16 == 0,
    ensures
        ({
            let a = (low + 0x1_0000_0000 * high) as u64;
            let p = configured(configured(q, x, low, regions).0, y, high, regions).0;
            &&& p == configured(configured(q, y, high, regions).0, x, low, regions).0
            &&& x == 0x80 ==> p == (Ring { desc_table: a, ..q })
            &&& x == 0x90 ==> p == (Ring { avail_ring: a, ..q })
            &&& x == 0xa0 ==> p == (Ring { used_ring: a, ..q })
            &&& !configured(q, x, low, regions).0.ready && !configured(q, y, high, regions).0.ready
        }),
{
    lemma_moved_twice(q.desc_table, low, high, 16);
    lemma_moved_twice(q.avail_ring, low, high, 2);
    lemma_moved_twice(q.used_ring, low, high, 4);
}

proof fn lemma_placed<D: VirtioDevice>(
    s: MmioView<D>,
    offset: u64,
    value: u32,
    regions: Seq<(u64, u64)>,
)
    requires
        s.queue_sel < s.queues.rings.len(),
        s.status & 4 == 0,
        offset == 0x80 || offset == 0x84 || offset == 0x90 || offset == 0x94 || offset == 0xa0
            || offset == 0xa4,
    ensures
        ({
            let i = s.queue_sel as int;
            let t = s.written(offset, value, regions).0;
            &&& t.queue_sel == s.queue_sel
            &&& t.status == s.status
            &&& t.queues.rings.len() == s.queues.rings.len()
            &&& t.queues.rings[i] == configured(s.queues.rings[i], offset, value, regions).0
            &&& forall|j: int|
                0 <= j < s.queues.rings.len() && j != i ==> #[trigger] t.queues.rings[j]
                    == s.queues.rings[j]
        }),
{
}

/// A queue is put in place by three addresses, of its table and of its two rings,
/// each in two halves in either order.
pub proof fn queues_are_placed_by_halves<D: VirtioDevice>(
    s: MmioView<D>,
    x: u64,
    y: u64,
    low: u32,
    high: u32,
    regions: Seq<(u64, u64)>,
)
    requires
        (x == 0x80 && y == 0x84) || (x == 0x90 && y == 0x94) || (x == 0xa0 && y == 0xa4),
        s.queue_sel < s.queues.rings.len(),
        s.status & 4 == 0,
        s.queues.rings[s.queue_sel as int].wf(),
        !s.queues.rings[s.queue_sel as int].ready,
        low % 16 == 0,
    ensures
        ({
            let i = s.queue_sel as int;
            let q = s.queues.rings[i];
            let a = (low + 0x1_0000_0000 * high) as u64;
            let both = s.written(x, low, regions).0.written(y, high, regions).0.queues.rings[i];
            let turned = s.written(y, high, regions).0.written(x, low, regions).0.queues.rings[i];
            &&& both == turned
            &&& x == 0x80 ==> both == (Ring { desc_table: a, ..q })
            &&& x == 0x90 ==> both == (Ring { avail_ring: a, ..q })
            &&& x == 0xa0 ==> both == (Ring { used_ring: a, ..q })
        }),
{
    let i = s.queue_sel as int;
    lemma_placed(s, x, low, regions);
    lemma_placed(s, y, high, regions);
    lemma_placed(s.written(x, low, regions).0, y, high, regions);
    lemma_placed(s.written(y, high, regions).0, x, low, regions);
    lemma_halves(s.queues.rings[i], x, y, low, high, regions);
}

/// Which sizes a queue takes: the powers of two up to 128. It is put to use only
/// where all of it is mapped, and while it is in use nothing of it changes but
/// that it is taken out of use.
pub proof fn queues_in_use_stay_as_they_are<D: VirtioDevice>(
    s: MmioView<D>,
    offset: u64,
    value: u32,
    regions: Seq<(u64, u64)>,
)
    requires
        s.queue_sel < s.queues.rings.len(),
        s.status & 4 == 0,
        s.queues.rings[s.queue_sel as int].max_size == 128,
    ensures
        ({
            let i = s.queue_sel as int;
            let q = s.queues.rings[i];
            let (t, r) = s.written(offset, value, regions);
            let p = t.queues.rings[i];
            &&& offset == 0x38 && !q.ready ==> {
                &&& r is Ok <==> value == 1 || value == 2 || value == 4 || value == 8 || value == 16
                    || value == 32 || value == 64 || value == 128
                &&& p == if r is Ok {
                    Ring { size: value as u16, ..q }
                } else {
                    q
                }
            }
            &&& offset == 0x44 && !q.ready && value == 1 ==> {
                &&& p == (Ring { ready: true, ..q })
                &&& r is Ok <==> covers(regions, q.desc_table as int, 16 * q.size) && covers(
                    regions,
                    q.avail_ring as int,
                    6 + 2 * q.size,
                ) && covers(regions, q.used_ring as int, 6 + 8 * q.size)
            }
            &&& offset == 0x44 && value == 0 ==> r is Ok && p == (Ring { ready: false, ..q })
            &&& q.ready && p != q ==> offset == 0x44 && value == 0
        }),
{
    let v = value as u16;
    if value <= 128 {
        assert(v != 0 && v <= 128 ==> ((v & ((v - 1) as u16) == 0) <==> (v == 1 || v == 2 || v == 4
            || v == 8 || v == 16 || v == 32 || v == 64 || v == 128))) by (bit_vector);
    }
    let i = s.queue_sel as int;
    assert(s.queues.rings.update(i, s.queues.rings[i]) =~= s.queues.rings);
}

/// The driver takes note of what the device wanted, and the rest stays wanted;
/// a change of the configuration is one such thing, whatever else there is.
pub proof fn interrupts_last_until_taken_note_of<D: VirtioDevice>(
    s: MmioView<D>,
    value: u32,
    regions: Seq<(u64, u64)>,
)
    ensures
        ({
            let (t, r) = s.written(0x64, value, regions);
            &&& r is Ok
            &&& t.register(0x60, 4) == s.queues.interrupt & !value
            &&& t == (MmioView {
                queues: QueuesView { interrupt: t.queues.interrupt, ..s.queues },
                ..s
            })
            &&& s.reconfigured().queues.interrupt & 2 != 0
            &&& s.reconfigured().queues.interrupt & 1 == s.queues.interrupt & 1
            &&& s.reconfigured().interrupts()
            &&& s.reconfigured() == (MmioView {
                queues: QueuesView {
                    interrupt: s.reconfigured().queues.interrupt,
                    ..s.queues
                },
                ..s
            })
        }),
{
    let i = s.queues.interrupt;
    assert((i | 2) & 2 != 0 && (i | 2) & 1 == i & 1 && i | 2 != 0) by (bit_vector);
}

/// A device hears of a queue exactly where the driver is up and neither side has
/// failed; another write does not reach it but for a reset, which leaves the
/// transport as it was at first.
pub proof fn writes_reach_the_device_when_it_is_driven<D: VirtioDevice>(
    s0: MmioView<D>,
    offset: u64,
    value: u32,
    m0: Memory,
    s1: MmioView<D>,
    m1: Memory,
    r: Result<(), DeviceError>,
)
    requires
        write_rel(s0, offset, value, m0, s1, m1, r),
    ensures
        ({
            let up = s0.status & 15 == 15 && s0.status & 0x40 == 0 && s0.status & 0x80 == 0;
            let heard = offset == 0x50 && up && value < s0.queues.rings.len();
            let reset = offset == 0x70 && value == 0;
            &&& running(s0.status) <==> up
            &&& heard ==> D::notify_rel(
                s0.device,
                value as int,
                s0.queues,
                m0,
                s1.device,
                s1.queues,
                m1,
                r,
            ) && s1.status == s0.status && s1.features == s0.features
            &&& !heard && !reset ==> s1.device == s0.device && m1 == m0
            &&& reset ==> D::reset_rel(s0.device, s1.device, r) && m1 == m0
            &&& reset && r is Ok ==> {
                &&& s1.status == 0 && s1.queues.negotiated == 0 && s1.queues.interrupt == 0
                &&& s1.features == s0.features
                &&& s1.queues.rings.len() == s1.device.queues_of()
                &&& forall|i: int|
                    0 <= i < s1.queues.rings.len() ==> !(#[trigger] s1.queues.rings[i]).ready
            }
            &&& reset && r is Err ==> s1.status == s0.status && s1.queues == s0.queues
        }),
{
    let status = s0.status;
    assert(status & 0xcf == 0xf <==> status & 15 == 15 && status & 0x40 == 0 && status & 0x80 == 0)
        by (bit_vector);
}

} // verus!

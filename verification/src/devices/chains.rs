//! What the queues tell a device: descriptors as they stand in the table, chains
//! as they follow one another in it, and the buffers that wait to be used.
use crate::bytes::{be32, be64, le16, le16_bytes, le32, le32_bytes, le64, le64_bytes};
use crate::devices::queues::{
    available_rel, chain_pins, complete_rel, entries_rel, entry, entry_read, entry_rel, pending,
    pinned_rel, pop_rel, ring_rel, table_pins, take_rel, walk, QueuesView,
};
use crate::error::DeviceError;
use crate::guest::{mapped, ordered, Access, Memory};
use crate::math::through;
use crate::ring::{idx_access, Descriptor, Ring};
use vstd::prelude::*;

verus! {

/// Numbers in memory are the sum of their bytes, each weighed by its place, and
/// every number is written in as many bytes as it has.
pub proof fn numbers_are_made_of_bytes(b: Seq<u8>, p: int, x: u16, y: u32, z: u64)
    ensures
        le16(b, p) == b[p] + 0x100 * b[p + 1],
        le32(b, p) == b[p] + 0x100 * b[p + 1] + 0x1_0000 * b[p + 2] + 0x100_0000 * b[p + 3],
        le64(b, p) == b[p] + 0x100 * b[p + 1] + 0x1_0000 * b[p + 2] + 0x100_0000 * b[p + 3]
            + 0x1_0000_0000 * b[p + 4] + 0x100_0000_0000 * b[p + 5] + 0x1_0000_0000_0000 * b[p + 6]
            + 0x100_0000_0000_0000 * b[p + 7],
        be32(b, p) == 0x100_0000 * b[p] + 0x1_0000 * b[p + 1] + 0x100 * b[p + 2] + b[p + 3],
        be64(b, p) == 0x100_0000_0000_0000 * b[p] + 0x1_0000_0000_0000 * b[p + 1]
            + 0x100_0000_0000 * b[p + 2] + 0x1_0000_0000 * b[p + 3] + 0x100_0000 * b[p + 4]
            + 0x1_0000 * b[p + 5] + 0x100 * b[p + 6] + b[p + 7],
        le16_bytes(x).len() == 2,
        le32_bytes(y).len() == 4,
        le64_bytes(z).len() == 8,
        x == le16_bytes(x)[0] + 0x100 * le16_bytes(x)[1],
        y == le32_bytes(y)[0] + 0x100 * le32_bytes(y)[1] + 0x1_0000 * le32_bytes(y)[2] + 0x100_0000
            * le32_bytes(y)[3],
        z == le64_bytes(z)[0] + 0x100 * le64_bytes(z)[1] + 0x1_0000 * le64_bytes(z)[2] + 0x100_0000
            * le64_bytes(z)[3] + 0x1_0000_0000 * le64_bytes(z)[4] + 0x100_0000_0000 * le64_bytes(
            z,
        )[5] + 0x1_0000_0000_0000 * le64_bytes(z)[6] + 0x100_0000_0000_0000 * le64_bytes(z)[7],
{
    crate::bytes::decode_inverts_encode(x, y, z);
}

/// A descriptor is sixteen bytes: an address, a length, flags and the index of the
/// next descriptor. The lowest flag says that there is a next one, the second that
/// the device may write, the third that it points to a table; no other flag may be
/// set, and each byte of the buffer must be memory.
pub proof fn descriptors_are_read_off_their_bytes(b: Seq<u8>, regions: Seq<(u64, u64)>)
    requires
        b.len() == 16,
    ensures
        ({
            let d = Descriptor::decode(b);
            &&& d.addr == b[0] + 0x100 * b[1] + 0x1_0000 * b[2] + 0x100_0000 * b[3] + 0x1_0000_0000
                * b[4] + 0x100_0000_0000 * b[5] + 0x1_0000_0000_0000 * b[6] + 0x100_0000_0000_0000
                * b[7]
            &&& d.len == b[8] + 0x100 * b[9] + 0x1_0000 * b[10] + 0x100_0000 * b[11]
            &&& d.flags == b[12] + 0x100 * b[13]
            &&& d.next == b[14] + 0x100 * b[15]
            &&& d.chained() <==> d.flags & 1 != 0
            &&& d.writable() <==> d.flags & 2 != 0
            &&& d.indirect() <==> d.flags & 4 != 0
            &&& d.sound(regions) <==> d.flags & 0xfffc == 0 && forall|a: int|
                d.addr <= a < d.addr + d.len ==> #[trigger] mapped(regions, a)
        }),
{
    lemma_flags(Descriptor::decode(b).flags);
}

proof fn lemma_flags(f: u16)
    ensures
        f % 2 == 1 <==> f & 1 != 0,
        (f / 2) % 2 == 1 <==> f & 2 != 0,
        (f / 4) % 2 == 1 <==> f & 4 != 0,
        f <= 3 <==> f & 0xfffc == 0,
{
    assert((f % 2 == 1 <==> f & 1 != 0) && ((f / 2) % 2 == 1 <==> f & 2 != 0) && ((f / 4) % 2 == 1
        <==> f & 4 != 0) && (f <= 3 <==> f & 0xfffc == 0)) by (bit_vector);
}

/// The descriptors that were read, one after another from index `at` on, each
/// naming the next.
pub open spec fn follows(ring: Ring, at: int, log: Seq<Access>, d: Seq<Descriptor>) -> bool {
    &&& log.len() == d.len()
    &&& forall|i: int|
        0 <= i < log.len() ==> {
            let index = if i == 0 {
                at
            } else {
                d[i - 1].next as int
            };
            &&& index < ring.size
            &&& #[trigger] log[i] matches Access::Read { addr, data } && data.len() == 16 && addr
                == ring.desc_table + 16 * index && d[i] == Descriptor::decode(data)
        }
}

/// What was read says why a chain is refused.
pub open spec fn refused_for(
    ring: Ring,
    regions: Seq<(u64, u64)>,
    at: int,
    d: Seq<Descriptor>,
    e: DeviceError,
) -> bool {
    let index = if d.len() == 0 {
        at
    } else {
        d.last().next as int
    };
    match e {
        DeviceError::CyclicDescriptorChain => d.len() == ring.size && forall|i: int|
            0 <= i < d.len() ==> (#[trigger] d[i]).flags & 1 != 0,
        DeviceError::DescriptorIndexOutOfRange { index: named, size } => {
            &&& d.len() < ring.size
            &&& named == index && size == ring.size && named >= size
            &&& d.len() > 0 ==> d.last().flags & 1 != 0
        },
        DeviceError::UnnegotiatedIndirectDescriptor => d.len() > 0 && d.last().flags & 4 != 0,
        DeviceError::InvalidDescriptorFlagsRange { address, length, flags } => {
            &&& d.len() > 0
            &&& address == d.last().addr && length == d.last().len && flags == d.last().flags
            &&& flags & 4 == 0
            &&& flags & 0xfffc != 0 || exists|a: int|
                address <= a < address + length && !(#[trigger] mapped(regions, a))
        },
        _ => false,
    }
}

proof fn lemma_walk(
    ring: Ring,
    regions: Seq<(u64, u64)>,
    at: int,
    index: u16,
    steps: nat,
    done: Seq<Descriptor>,
    before: Seq<Access>,
    log: Seq<Access>,
) -> (all: Seq<Descriptor>)
    requires
        follows(ring, at, before, done),
        done.len() + steps == ring.size,
        index == if done.len() == 0 {
            at
        } else {
            done.last().next as int
        },
        ring.desc_table + 16 * ring.size <= u64::MAX,
        forall|i: int| 0 <= i < done.len() ==> (#[trigger] done[i]).flags & 1 != 0,
        walk(ring, regions, index, steps, done, log) is Some,
    ensures
        follows(ring, at, before + log, all),
        walk(ring, regions, index, steps, done, log) matches Some(Ok(d)) ==> {
            &&& d == all
            &&& d.len() > 0 && d.last().flags & 1 == 0
            &&& forall|i: int| 0 <= i < d.len() - 1 ==> (#[trigger] d[i]).flags & 1 != 0
        },
        walk(ring, regions, index, steps, done, log) matches Some(Err(e)) ==> refused_for(
            ring,
            regions,
            at,
            all,
            e,
        ),
    decreases steps,
{
    if steps == 0 || index >= ring.size {
        assert(before + log =~= before);
        done
    } else {
        let data = log[0]->Read_data;
        let d = Descriptor::decode(data);
        let rest = log.skip(1);
        let more = done.push(d);
        let then = before.push(log[0]);
        lemma_flags(d.flags);
        assert(then + rest =~= before + log);
        assert(follows(ring, at, then, more)) by {
            assert forall|i: int| 0 <= i < then.len() implies {
                let index = if i == 0 {
                    at
                } else {
                    more[i - 1].next as int
                };
                &&& index < ring.size
                &&& #[trigger] then[i] matches Access::Read { addr, data } && data.len() == 16
                    && addr == ring.desc_table + 16 * index && more[i] == Descriptor::decode(data)
            } by {
                if i < before.len() {
                    assert(then[i] == before[i]);
                    assert(more[i] == done[i]);
                    if i > 0 {
                        assert(more[i - 1] == done[i - 1]);
                    }
                } else {
                    assert(then[i] == log[0]);
                    if i > 0 {
                        assert(more[i - 1] == done.last());
                    }
                }
            }
        }
        if d.indirect() || !d.sound(regions) || !d.chained() {
            assert(then =~= before + log) by {
                assert(rest.len() == 0);
            }
            assert forall|i: int| 0 <= i < more.len() - 1 implies (#[trigger] more[i]).flags & 1
                != 0 by {
                assert(more[i] == done[i]);
            }
            more
        } else {
            assert forall|i: int| 0 <= i < more.len() implies (#[trigger] more[i]).flags & 1
                != 0 by {
                if i < done.len() {
                    assert(more[i] == done[i]);
                }
            }
            lemma_walk(ring, regions, at, d.next, (steps - 1) as nat, more, then, rest)
        }
    }
}

/// The accesses by which a chain is taken: how far the driver is, where the chain
/// starts, and its descriptors.
pub open spec fn taking(
    ring: Ring,
    m0: Memory,
    m1: Memory,
    idx: u16,
    head: u16,
    log: Seq<Access>,
) -> bool {
    m1.accesses == m0.accesses + seq![
        Access::AvailIdx { addr: ring.avail_ring, value: Some(idx) },
        Access::Head { addr: ring.avail_ring, index: ring.next_avail, value: Some(Some(head)) },
    ] + log
}

proof fn lemma_take(
    q0: QueuesView,
    index: int,
    m0: Memory,
    q1: QueuesView,
    m1: Memory,
    r: Result<Option<(u16, Seq<Descriptor>)>, DeviceError>,
    idx: u16,
    h: u16,
) -> (parts: (Seq<Access>, Seq<Descriptor>))
    requires
        0 <= index < q0.rings.len(),
        q0.wf(),
        ordered(m0.regions),
        q0.rings[index].valid(m0.regions),
        take_rel(
            q0,
            index,
            m0.after(idx_access(q0.rings[index], Some(idx))),
            q1,
            m1,
            r,
            Some(Some(h)),
        ),
    ensures
        taking(q0.rings[index], m0, m1, idx, h, parts.0),
        follows(q0.rings[index], h as int, parts.0, parts.1),
        r matches Ok(c) ==> c == Some((h, parts.1)) && parts.1.len() > 0 && parts.1.last().flags & 1
            == 0 && forall|i: int|
            0 <= i < parts.1.len() - 1 ==> (#[trigger] parts.1[i]).flags & 1 != 0,
        r matches Err(e) ==> refused_for(q0.rings[index], m0.regions, h as int, parts.1, e),
{
    let ring = q0.rings[index];
    let m = m0.after(idx_access(ring, Some(idx)));
    let next = m.after(crate::ring::head_access(ring, Some(Some(h))));
    let log = choose|log: Seq<Access>|
        m1 == #[trigger] next.after_all(log) && match walk(
            ring,
            next.regions,
            h,
            ring.size as nat,
            Seq::empty(),
            log,
        ) {
            None => false,
            Some(Ok(d)) => r == Ok::<Option<(u16, Seq<Descriptor>)>, DeviceError>(Some((h, d))),
            Some(Err(e)) => r == Err::<Option<(u16, Seq<Descriptor>)>, DeviceError>(e),
        };
    lemma_table(ring, m0);
    let none = Seq::<Descriptor>::empty();
    let all = lemma_walk(
        ring,
        next.regions,
        h as int,
        h,
        ring.size as nat,
        none,
        Seq::empty(),
        log,
    );
    assert(Seq::<Access>::empty() + log =~= log);
    assert(m1.accesses =~= m0.accesses + seq![
        Access::AvailIdx { addr: ring.avail_ring, value: Some(idx) },
        Access::Head { addr: ring.avail_ring, index: ring.next_avail, value: Some(Some(h)) },
    ] + log);
    (log, all)
}

/// A chain is taken exactly when the driver is ahead, and it is the next one: the
/// queue goes on by one place, and the chain holds the descriptors as they stand in
/// the table, each the one that the last named, up to the first that names none.
pub proof fn chains_are_taken_in_order(
    q0: QueuesView,
    index: int,
    m0: Memory,
    q1: QueuesView,
    m1: Memory,
    r: Result<Option<(u16, Seq<Descriptor>)>, DeviceError>,
)
    requires
        0 <= index < q0.rings.len(),
        q0.wf(),
        ordered(m0.regions),
        pop_rel(q0, index, m0, q1, m1, r),
    ensures
        r matches Ok(None) ==> q1 == q0 && m1.accesses == m0.accesses.push(
            Access::AvailIdx {
                addr: q0.rings[index].avail_ring,
                value: Some(q0.rings[index].next_avail),
            },
        ),
        r matches Ok(Some(c)) ==> {
            let ring = q0.rings[index];
            let d = c.1;
            &&& q1.rings[index].next_avail == (ring.next_avail + 1) % 0x1_0000
            &&& q1.rings[index].next_used == ring.next_used
            &&& q1.interrupt == q0.interrupt
            &&& exists|idx: u16, log: Seq<Access>|
                {
                    &&& #[trigger] taking(ring, m0, m1, idx, c.0, log)
                    &&& 1 <= (idx - ring.next_avail) % 0x1_0000 <= ring.size
                    &&& follows(ring, c.0 as int, log, d)
                }
            &&& d.len() > 0 && d.last().flags & 1 == 0
            &&& forall|i: int| 0 <= i < d.len() - 1 ==> (#[trigger] d[i]).flags & 1 != 0
        },
{
    let ring = q0.rings[index];
    let (m, n) = choose|m: Memory, n: Result<u16, DeviceError>|
        #[trigger] available_rel(ring, m0, m, n) && match n {
            Err(e) => q1 == q0 && m1 == m && r == Err::<
                Option<(u16, Seq<Descriptor>)>,
                DeviceError,
            >(e),
            Ok(count) => if count == 0 {
                q1 == q0 && m1 == m && r == Ok::<Option<(u16, Seq<Descriptor>)>, DeviceError>(None)
            } else {
                exists|head: Option<Option<u16>>|
                    #[trigger] take_rel(q0, index, m, q1, m1, r, head)
            },
        };
    if n is Ok {
        let idx = choose|idx: Option<u16>|
            m == m0.after(#[trigger] idx_access(ring, idx)) && n == pending(ring, idx);
        if n->Ok_0 != 0 {
            let head = choose|head: Option<Option<u16>>|
                #[trigger] take_rel(q0, index, m, q1, m1, r, head);
            if head is Some && head->0 is Some {
                let h = head->0->0;
                let (log, all) = lemma_take(q0, index, m0, q1, m1, r, idx->0, h);
                assert(taking(ring, m0, m1, idx->0, h, log));
                assert(r matches Ok(c) ==> follows(ring, h as int, log, (c->0).1));
                let i = idx->0;
                assert(taking(ring, m0, m1, i, h, log) && 1 <= (i - ring.next_avail) % 0x1_0000
                    <= ring.size);
                assert(r is Ok ==> h == ((r->Ok_0)->0).0);
                assert(q1.rings[index].next_avail == (ring.next_avail + 1) % 0x1_0000);
            }
        }
    }
}

/// Where no chain is taken, the driver was found to be no further than the device.
pub proof fn an_empty_queue_is_found_empty(
    q0: QueuesView,
    index: int,
    m0: Memory,
    q1: QueuesView,
    m1: Memory,
)
    requires
        0 <= index < q0.rings.len(),
        pop_rel(q0, index, m0, q1, m1, Ok(None)),
    ensures
        q1 == q0,
        m1.accesses == m0.accesses.push(
            Access::AvailIdx {
                addr: q0.rings[index].avail_ring,
                value: Some(q0.rings[index].next_avail),
            },
        ),
{
    let ring = q0.rings[index];
    let r = Ok::<Option<(u16, Seq<Descriptor>)>, DeviceError>(None);
    let (m, n) = choose|m: Memory, n: Result<u16, DeviceError>|
        #[trigger] available_rel(ring, m0, m, n) && match n {
            Err(e) => q1 == q0 && m1 == m && r == Err::<
                Option<(u16, Seq<Descriptor>)>,
                DeviceError,
            >(e),
            Ok(count) => if count == 0 {
                q1 == q0 && m1 == m && r == Ok::<Option<(u16, Seq<Descriptor>)>, DeviceError>(None)
            } else {
                exists|head: Option<Option<u16>>|
                    #[trigger] take_rel(q0, index, m, q1, m1, r, head)
            },
        };
    let idx = choose|idx: Option<u16>|
        m == m0.after(#[trigger] idx_access(ring, idx)) && n == pending(ring, idx);
    if n->Ok_0 != 0 {
        let head = choose|head: Option<Option<u16>>|
            #[trigger] take_rel(q0, index, m, q1, m1, r, head);
        assert(head is Some);
        let h = head->0->0;
        let next = m.after(crate::ring::head_access(ring, head));
        let log = choose|log: Seq<Access>|
            m1 == #[trigger] next.after_all(log) && match walk(
                ring,
                next.regions,
                h,
                ring.size as nat,
                Seq::empty(),
                log,
            ) {
                None => false,
                Some(Ok(d)) => r == Ok::<Option<(u16, Seq<Descriptor>)>, DeviceError>(Some((h, d))),
                Some(Err(e)) => r == Err::<Option<(u16, Seq<Descriptor>)>, DeviceError>(e),
            };
        assert(false);
    }
}

/// A table that is memory ends below the last address.
proof fn lemma_table(ring: Ring, m: Memory)
    requires
        ring.wf(),
        ordered(m.regions),
        ring.valid(m.regions),
    ensures
        ring.desc_table + 16 * ring.size <= u64::MAX,
        ring.avail_ring + 6 + 2 * ring.size <= u64::MAX,
{
    assert(mapped(m.regions, ring.desc_table + 16 * ring.size - 1));
    assert(mapped(m.regions, ring.avail_ring + 6 + 2 * ring.size - 1));
}

/// A chain that is refused is refused for what the queue holds: a driver further
/// ahead than there are places, a place that cannot be read, an index that is none,
/// a circle, a flag that means nothing here, or a buffer that is no memory.
pub proof fn chains_are_refused_for_what_is_wrong(
    q0: QueuesView,
    index: int,
    m0: Memory,
    q1: QueuesView,
    m1: Memory,
    e: DeviceError,
)
    requires
        0 <= index < q0.rings.len(),
        q0.wf(),
        ordered(m0.regions),
        pop_rel(q0, index, m0, q1, m1, Err(e)),
    ensures
        ({
            let ring = q0.rings[index];
            ||| e is InvalidVirtqueue && !ring.valid(m0.regions)
            ||| e is Queue
            ||| e is InvalidAvailableDescriptor
            ||| e matches DeviceError::AvailableRingOverrun { count, size } && size == ring.size
                && count > size && m1.accesses.len() == m0.accesses.len() + 1 && (
            m1.accesses.last() matches Access::AvailIdx { addr, value } && addr == ring.avail_ring
                && value is Some && count == (value->0 - ring.next_avail) % 0x1_0000)
            ||| exists|idx: u16, head: u16, log: Seq<Access>|
                #[trigger] taking(ring, m0, m1, idx, head, log) && exists|d: Seq<Descriptor>|
                    #[trigger] follows(ring, head as int, log, d) && refused_for(
                        ring,
                        m0.regions,
                        head as int,
                        d,
                        e,
                    )
        }),
{
    let ring = q0.rings[index];
    let r = Err::<Option<(u16, Seq<Descriptor>)>, DeviceError>(e);
    let (m, n) = choose|m: Memory, n: Result<u16, DeviceError>|
        #[trigger] available_rel(ring, m0, m, n) && match n {
            Err(e) => q1 == q0 && m1 == m && r == Err::<
                Option<(u16, Seq<Descriptor>)>,
                DeviceError,
            >(e),
            Ok(count) => if count == 0 {
                q1 == q0 && m1 == m && r == Ok::<Option<(u16, Seq<Descriptor>)>, DeviceError>(None)
            } else {
                exists|head: Option<Option<u16>>|
                    #[trigger] take_rel(q0, index, m, q1, m1, r, head)
            },
        };
    if ring.valid(m0.regions) {
        let idx = choose|idx: Option<u16>|
            m == m0.after(#[trigger] idx_access(ring, idx)) && n == pending(ring, idx);
        if n is Ok {
            let head = choose|head: Option<Option<u16>>|
                #[trigger] take_rel(q0, index, m, q1, m1, r, head);
            if head is Some && head->0 is Some {
                let h = head->0->0;
                let (log, all) = lemma_take(q0, index, m0, q1, m1, r, idx->0, h);
                assert(taking(ring, m0, m1, idx->0, h, log));
                assert(follows(ring, h as int, log, all));
            }
        }
    }
}

/// A chain that is handed back stands in the used ring with the number of bytes
/// that were written, the ring goes on by one place, and the driver is told.
/// Nothing else of the queues changes.
pub proof fn chains_are_handed_back(
    q0: QueuesView,
    index: int,
    m0: Memory,
    head: u16,
    len: u32,
    q1: QueuesView,
    m1: Memory,
    r: Result<(), DeviceError>,
)
    requires
        0 <= index < q0.rings.len(),
        complete_rel(q0, index, m0, head, len, q1, m1, r),
    ensures
        r is Ok ==> {
            let ring = q0.rings[index];
            &&& head < ring.size
            &&& m1.accesses == m0.accesses.push(
                Access::Used {
                    addr: ring.used_ring,
                    index: ring.next_used,
                    head,
                    len,
                    ok: true,
                },
            )
            &&& q1.rings[index].next_used == (ring.next_used + 1) % 0x1_0000
            &&& q1.rings[index].next_avail == ring.next_avail
            &&& q1.rings.len() == q0.rings.len()
            &&& forall|i: int|
                0 <= i < q0.rings.len() && i != index ==> #[trigger] q1.rings[i] == q0.rings[i]
            &&& q1.interrupt & 1 != 0
            &&& q1.interrupt & !1 == q0.interrupt & !1
            &&& q1.negotiated == q0.negotiated
        },
        r is Err ==> q1.interrupt == q0.interrupt,
        head >= q0.rings[index].size ==> r is Err && m1 == m0 && q1 == q0,
{
    let x = q0.interrupt;
    assert((x | 1) & 1 != 0 && (x | 1) & !1 == x & !1) by (bit_vector);
}

/// The buffer of a descriptor that was read is among `pins`.
pub open spec fn buffer_in(access: Access, pins: Seq<(u64, u64)>) -> bool {
    match access {
        Access::Read { addr, data } => data.len() == 16 && le32(data, 8) > 0 ==> pins.contains(
            (le64(data, 0) as u64, le32(data, 8) as u64),
        ),
        _ => true,
    }
}

/// So is that of every one.
pub open spec fn buffers_in(log: Seq<Access>, pins: Seq<(u64, u64)>) -> bool {
    forall|j: int| 0 <= j < log.len() ==> buffer_in(#[trigger] log[j], pins)
}

/// At place `j` the entry for the `i`th waiting chain was read, and then the
/// descriptor that it names.
pub open spec fn entry_at(log: Seq<Access>, j: int, ring: Ring, i: int) -> bool {
    &&& 0 <= j && j + 1 < log.len()
    &&& log[j] matches Access::Read { addr, data } && data.len() == 2 && addr == ring.avail_ring + 4
        + 2 * ((ring.next_avail + i) % 0x1_0000 % (ring.size as int)) && (log[j
        + 1] matches Access::Read { addr: at, data: d } && d.len() == 16 && at == ring.desc_table
        + 16 * le16(data, 0))
}

/// So it was at a place after `j`.
pub open spec fn entry_after(log: Seq<Access>, j: int, ring: Ring, i: int) -> bool {
    exists|k: int| j < k && #[trigger] entry_at(log, k, ring, i)
}

/// How far the driver is was read at place `j`, and then every chain up to there.
pub open spec fn ring_at(log: Seq<Access>, j: int, ring: Ring) -> bool {
    &&& 0 <= j < log.len()
    &&& log[j] matches Access::AvailIdx { addr, value } && addr == ring.avail_ring && value is Some
        && (value->0 - ring.next_avail) % 0x1_0000 <= ring.size && forall|i: int|
        0 <= i < (value->0 - ring.next_avail) % 0x1_0000 ==> #[trigger] entry_after(log, j, ring, i)
}

pub open spec fn holds_all(more: Seq<(u64, u64)>, less: Seq<(u64, u64)>) -> bool {
    forall|x: (u64, u64)| less.contains(x) ==> more.contains(x)
}

proof fn lemma_chain_pins(
    ring: Ring,
    regions: Seq<(u64, u64)>,
    index: u16,
    steps: nat,
    pins: Seq<(u64, u64)>,
    log: Seq<Access>,
)
    requires
        ring.desc_table + 16 * ring.size <= u64::MAX,
    ensures
        chain_pins(ring, regions, index, steps, pins, log) matches Some(Ok(all)) ==> {
            &&& holds_all(all, pins)
            &&& buffers_in(log, all)
            &&& log.len() > 0
            &&& log[0] matches Access::Read { addr, data } && data.len() == 16 && addr
                == ring.desc_table + 16 * index
        },
    decreases steps,
{
    let r = chain_pins(ring, regions, index, steps, pins, log);
    if r is Some && r->0 is Ok {
        let all = r->0->Ok_0;
        let data = log[0]->Read_data;
        let d = Descriptor::decode(data);
        let rest = log.skip(1);
        let more = if d.len != 0 {
            pins.push((d.addr, d.len as u64))
        } else {
            pins
        };
        assert(holds_all(more, pins)) by {
            assert forall|x: (u64, u64)| pins.contains(x) implies more.contains(x) by {
                let i = choose|i: int| 0 <= i < pins.len() && pins[i] == x;
                assert(more[i] == x);
            }
        }
        if d.len != 0 {
            assert(more.last() == (d.addr, d.len as u64));
            assert(more.contains((d.addr, d.len as u64)));
        }
        if d.chained() {
            lemma_chain_pins(ring, regions, d.next, (steps - 1) as nat, more, rest);
        }
        assert forall|j: int| 0 <= j < log.len() implies buffer_in(#[trigger] log[j], all) by {
            if j > 0 {
                assert(log[j] == rest[j - 1]);
            }
        }
    }
}

proof fn lemma_buffers_in(a: Seq<Access>, b: Seq<Access>, p: Seq<(u64, u64)>, q: Seq<(u64, u64)>)
    requires
        buffers_in(a, p),
        buffers_in(b, q),
        holds_all(q, p),
    ensures
        buffers_in(a + b, q),
{
    let log = a + b;
    assert forall|j: int| 0 <= j < log.len() implies buffer_in(#[trigger] log[j], q) by {
        if j < a.len() {
            assert(log[j] == a[j]);
        } else {
            assert(log[j] == b[j - a.len()]);
        }
    }
}

proof fn lemma_entries(
    ring: Ring,
    n: nat,
    m0: Memory,
    m1: Memory,
    pins: Seq<(u64, u64)>,
    all: Seq<(u64, u64)>,
) -> (log: Seq<Access>)
    requires
        entries_rel(ring, n, m0, m1, pins, Ok(all)),
        ring.desc_table + 16 * ring.size <= u64::MAX,
        ring.avail_ring + 6 + 2 * ring.size <= u64::MAX,
        ring.size > 0,
    ensures
        m1 == m0.after_all(log),
        holds_all(all, pins),
        buffers_in(log, all),
        forall|i: int| 0 <= i < n ==> #[trigger] entry_after(log, -1, ring, i),
    decreases n,
{
    if n == 0 {
        assert(m0.accesses + Seq::<Access>::empty() =~= m0.accesses);
        Seq::empty()
    } else {
        let r = Ok::<Seq<(u64, u64)>, DeviceError>(all);
        let (m, e) = choose|m: Memory, e: Result<Seq<(u64, u64)>, DeviceError>|
            #[trigger] through((m, e)) && entries_rel(ring, (n - 1) as nat, m0, m, pins, e) && match e {
                Err(_) => m1 == m && r == e,
                Ok(p) => entry_rel(ring, n - 1, m, m1, p, r),
            };
        let p = e->Ok_0;
        let a = lemma_entries(ring, (n - 1) as nat, m0, m, pins, p);
        let (data, rest) = choose|data: Seq<u8>, log: Seq<Access>|
            {
                &&& m1 == #[trigger] entry_read(ring, n - 1, m, data, log)
                &&& data.len() == 2
                &&& chain_pins(
                    ring,
                    m.regions,
                    le16(data, 0) as u16,
                    ring.size as nat,
                    p,
                    log,
                ) == Some(r)
            };
        lemma_chain_pins(ring, m.regions, le16(data, 0) as u16, ring.size as nat, p, rest);
        let first = Access::Read { addr: entry(ring, n - 1) as u64, data };
        let one = seq![first];
        let log = a + (one + rest);
        assert(m1.accesses =~= m0.accesses + log);
        assert(buffers_in(one, p));
        lemma_buffers_in(one, rest, p, all);
        lemma_buffers_in(a, one + rest, p, all);
        let slot = (ring.next_avail + (n - 1)) % 0x1_0000 % (ring.size as int);
        assert(0 <= slot < ring.size) by (nonlinear_arith)
            requires
                slot == (ring.next_avail + (n - 1)) % 0x1_0000 % (ring.size as int),
                ring.size > 0,
        ;
        assert forall|i: int| 0 <= i < n implies #[trigger] entry_after(log, -1, ring, i) by {
            if i < n - 1 {
                assert(entry_after(a, -1, ring, i));
                let k = choose|k: int| -1 < k && #[trigger] entry_at(a, k, ring, i);
                assert(log[k] == a[k] && log[k + 1] == a[k + 1]);
                assert(entry_at(log, k, ring, i));
            } else {
                let k = a.len() as int;
                assert(log[k] == first);
                assert(log[k + 1] == rest[0]);
                assert(entry_at(log, k, ring, i));
            }
        }
        log
    }
}

proof fn lemma_ring_pins(
    ring: Ring,
    m0: Memory,
    m1: Memory,
    pins: Seq<(u64, u64)>,
    all: Seq<(u64, u64)>,
) -> (log: Seq<Access>)
    requires
        ring_rel(ring, m0, m1, pins, Ok(all)),
        ring.wf(),
        ordered(m0.regions),
    ensures
        m1 == m0.after_all(log),
        holds_all(all, pins),
        buffers_in(log, all),
        ring.ready ==> {
            &&& all.contains((ring.desc_table, (16 * ring.size) as u64))
            &&& all.contains((ring.avail_ring, (6 + 2 * ring.size) as u64))
            &&& all.contains((ring.used_ring, (6 + 8 * ring.size) as u64))
            &&& exists|j: int| #[trigger] ring_at(log, j, ring)
        },
{
    if !ring.ready {
        assert(m0.accesses + Seq::<Access>::empty() =~= m0.accesses);
        Seq::empty()
    } else {
        let r = Ok::<Seq<(u64, u64)>, DeviceError>(all);
        lemma_table(ring, m0);
        let (m, n) = choose|m: Memory, n: Result<u16, DeviceError>|
            #[trigger] available_rel(ring, m0, m, n) && match n {
                Err(e) => m1 == m && r == Err::<Seq<(u64, u64)>, DeviceError>(e),
                Ok(count) => entries_rel(ring, count as nat, m, m1, pins + table_pins(ring), r),
            };
        let idx = choose|idx: Option<u16>|
            m == m0.after(#[trigger] idx_access(ring, idx)) && n == pending(ring, idx);
        let more = pins + table_pins(ring);
        let rest = lemma_entries(ring, (n->Ok_0) as nat, m, m1, more, all);
        let one = seq![idx_access(ring, idx)];
        let log = one + rest;
        assert(m1.accesses =~= m0.accesses + log);
        assert(buffers_in(one, more));
        lemma_buffers_in(one, rest, more, all);
        assert forall|x: (u64, u64)| pins.contains(x) implies all.contains(x) by {
            let i = choose|i: int| 0 <= i < pins.len() && pins[i] == x;
            assert(more[i] == x);
            assert(more.contains(x));
        }
        let at = pins.len() as int;
        assert(more[at] == table_pins(ring)[0] && more[at + 1] == table_pins(ring)[1] && more[at
            + 2] == table_pins(ring)[2]);
        assert(more.contains(more[at]) && more.contains(more[at + 1]) && more.contains(
            more[at + 2],
        ));
        assert(ring_at(log, 0, ring)) by {
            assert(log[0] == one[0]);
            assert forall|i: int| 0 <= i < n->Ok_0 implies #[trigger] entry_after(log, 0, ring, i) by {
                assert(entry_after(rest, -1, ring, i));
                let k = choose|k: int| -1 < k && #[trigger] entry_at(rest, k, ring, i);
                assert(log[k + 1] == rest[k] && log[k + 2] == rest[k + 1]);
                assert(entry_at(log, k + 1, ring, i));
            }
        }
        log
    }
}

/// What is pinned for the queues that are in use: their tables, and every buffer
/// of every chain that waits in them, as they stand in memory. So no memory that
/// a driver has lent is taken away from it.
pub proof fn lent_memory_is_pinned(
    rings: Seq<Ring>,
    n: nat,
    m0: Memory,
    m1: Memory,
    all: Seq<(u64, u64)>,
) -> (log: Seq<Access>)
    requires
        pinned_rel(rings, n, m0, m1, Ok(all)),
        n <= rings.len(),
        forall|i: int| 0 <= i < rings.len() ==> (#[trigger] rings[i]).wf(),
        ordered(m0.regions),
    ensures
        m1 == m0.after_all(log),
        buffers_in(log, all),
        forall|i: int|
            0 <= i < n && (#[trigger] rings[i]).ready ==> {
                &&& all.contains((rings[i].desc_table, (16 * rings[i].size) as u64))
                &&& all.contains((rings[i].avail_ring, (6 + 2 * rings[i].size) as u64))
                &&& all.contains((rings[i].used_ring, (6 + 8 * rings[i].size) as u64))
                &&& exists|j: int| #[trigger] ring_at(log, j, rings[i])
            },
    decreases n,
{
    if n == 0 {
        assert(m0.accesses + Seq::<Access>::empty() =~= m0.accesses);
        Seq::empty()
    } else {
        let r = Ok::<Seq<(u64, u64)>, DeviceError>(all);
        let (m, e) = choose|m: Memory, e: Result<Seq<(u64, u64)>, DeviceError>|
            #[trigger] through((m, e)) && pinned_rel(rings, (n - 1) as nat, m0, m, e) && match e {
                Err(_) => m1 == m && r == e,
                Ok(p) => ring_rel(rings[n - 1], m, m1, p, r),
            };
        let p = e->Ok_0;
        let a = lent_memory_is_pinned(rings, (n - 1) as nat, m0, m, p);
        let b = lemma_ring_pins(rings[n - 1], m, m1, p, all);
        let log = a + b;
        assert(m1.accesses =~= m0.accesses + log);
        lemma_buffers_in(a, b, p, all);
        assert forall|i: int| 0 <= i < n && (#[trigger] rings[i]).ready implies {
            &&& all.contains((rings[i].desc_table, (16 * rings[i].size) as u64))
            &&& all.contains((rings[i].avail_ring, (6 + 2 * rings[i].size) as u64))
            &&& all.contains((rings[i].used_ring, (6 + 8 * rings[i].size) as u64))
            &&& exists|j: int| #[trigger] ring_at(log, j, rings[i])
        } by {
            let from = if i < n - 1 {
                a
            } else {
                b
            };
            let shift = if i < n - 1 {
                0int
            } else {
                a.len() as int
            };
            let j = choose|j: int| #[trigger] ring_at(from, j, rings[i]);
            assert(log.subrange(shift, shift + from.len()) =~= from);
            lemma_ring_at(from, log, j, shift, rings[i]);
            assert(ring_at(log, j + shift, rings[i]));
        }
        log
    }
}

proof fn lemma_ring_at(part: Seq<Access>, log: Seq<Access>, j: int, shift: int, ring: Ring)
    requires
        ring_at(part, j, ring),
        0 <= shift,
        shift + part.len() <= log.len(),
        log.subrange(shift, shift + part.len()) == part,
    ensures
        ring_at(log, j + shift, ring),
{
    assert(log[j + shift] == log.subrange(shift, shift + part.len())[j]);
    let value = part[j]->AvailIdx_value;
    assert forall|i: int| 0 <= i < (value->0 - ring.next_avail) % 0x1_0000 implies #[trigger] entry_after(
        log,
        j + shift,
        ring,
        i,
    ) by {
        assert(entry_after(part, j, ring, i));
        let k = choose|k: int| j < k && #[trigger] entry_at(part, k, ring, i);
        assert(log[k + shift] == part[k]);
        assert(log[k + shift + 1] == part[k + 1]);
        assert(entry_at(log, k + shift, ring, i));
    }
}

} // verus!

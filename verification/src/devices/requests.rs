//! What a disk does for its driver: every chain that is made available is
//! served, and each request does what its header says with the bytes that
//! follow it.
use crate::bytes::{le32, le64};
use crate::devices::block::{
    command_of, execute_rel, header_writable, malformed, payload, request_rel, serve_one,
    serve_rel, Block, Command,
};
use crate::devices::buffers::{all_writable, length, reachable, reads, span, spread, writes};
use crate::devices::mmio::VirtioDevice;
use crate::devices::places::{
    a_span_is_a_part_of_the_bytes, chain_places, laid, places, segments_are_the_bytes_of_the_chain,
    trace, transfers_go_byte_by_byte,
};
use crate::devices::queues::{available_rel, complete_rel, pending, pop_rel, QueuesView};
use crate::error::{DeviceError, StorageError};
use crate::guest::{handled, ordered, touches, Access, Memory, Segment};
use crate::math::through;
use crate::ring::{idx_access, Descriptor};
use crate::storage::{BlockCall, BlockStorage};
use vstd::prelude::*;

verus! {

/// Later accesses only follow earlier ones.
pub open spec fn goes_on(m0: Memory, m1: Memory) -> bool {
    &&& m0.accesses.len() <= m1.accesses.len()
    &&& m1.accesses.take(m0.accesses.len() as int) == m0.accesses
    &&& m1.same(m0)
}

pub(crate) proof fn lemma_after_all(m0: Memory, log: Seq<Access>)
    ensures
        goes_on(m0, m0.after_all(log)),
        m0.after_all(log).accesses.skip(m0.accesses.len() as int) == log,
{
    let m1 = m0.after_all(log);
    assert(m1.accesses.take(m0.accesses.len() as int) =~= m0.accesses);
    assert(m1.accesses.skip(m0.accesses.len() as int) =~= log);
}

pub(crate) proof fn lemma_after(m0: Memory, access: Access)
    ensures
        goes_on(m0, m0.after(access)),
{
    assert(m0.after(access).accesses.take(m0.accesses.len() as int) =~= m0.accesses);
}

pub(crate) proof fn lemma_goes_on(m0: Memory, m1: Memory, m2: Memory)
    requires
        goes_on(m0, m1),
        goes_on(m1, m2),
    ensures
        goes_on(m0, m2),
{
    let n = m0.accesses.len() as int;
    assert(m2.accesses.take(n) =~= m1.accesses.take(n)) by {
        assert(m2.accesses.take(m1.accesses.len() as int).take(n) =~= m2.accesses.take(n));
    }
}

pub(crate) proof fn lemma_available(
    q0: QueuesView,
    index: int,
    m0: Memory,
    m1: Memory,
    r: Result<u16, DeviceError>,
)
    requires
        available_rel(q0.rings[index], m0, m1, r),
    ensures
        goes_on(m0, m1),
{
    let ring = q0.rings[index];
    if ring.valid(m0.regions) {
        let idx = choose|idx: Option<u16>|
            m1 == m0.after(#[trigger] idx_access(ring, idx)) && r == pending(ring, idx);
        lemma_after(m0, idx_access(ring, idx));
    } else {
        assert(m0.accesses.take(m0.accesses.len() as int) =~= m0.accesses);
    }
}

/// Taking a chain advances the queue by one entry, and nothing else of it.
pub(crate) proof fn lemma_pop(
    q0: QueuesView,
    index: int,
    m0: Memory,
    q1: QueuesView,
    m1: Memory,
    r: Result<Option<(u16, Seq<Descriptor>)>, DeviceError>,
)
    requires
        0 <= index < q0.rings.len(),
        pop_rel(q0, index, m0, q1, m1, r),
    ensures
        goes_on(m0, m1),
        q1.rings.len() == q0.rings.len(),
        q1.negotiated == q0.negotiated,
        q1.interrupt == q0.interrupt,
        q1.rings[index].next_used == q0.rings[index].next_used,
        q1.rings[index].size == q0.rings[index].size,
        r matches Ok(Some(_)) ==> q1.rings[index].next_avail == (q0.rings[index].next_avail + 1)
            % 0x1_0000,
        r matches Ok(None) ==> q1 == q0,
{
    let (m, n) = choose|m: Memory, n: Result<u16, DeviceError>|
        #[trigger] available_rel(q0.rings[index], m0, m, n) && match n {
            Err(e) => q1 == q0 && m1 == m && r == Err::<
                Option<(u16, Seq<Descriptor>)>,
                DeviceError,
            >(e),
            Ok(count) => if count == 0 {
                q1 == q0 && m1 == m && r == Ok::<Option<(u16, Seq<Descriptor>)>, DeviceError>(None)
            } else {
                exists|head: Option<Option<u16>>|
                    #[trigger] crate::devices::queues::take_rel(q0, index, m, q1, m1, r, head)
            },
        };
    lemma_available(q0, index, m0, m, n);
    if n is Ok && n->Ok_0 != 0 {
        let head = choose|head: Option<Option<u16>>|
            #[trigger] crate::devices::queues::take_rel(q0, index, m, q1, m1, r, head);
        let access = crate::ring::head_access(q0.rings[index], head);
        lemma_after(m, access);
        lemma_goes_on(m0, m, m.after(access));
        if let Some(Some(h)) = head {
            let ring = q0.rings[index];
            let log = choose|log: Seq<Access>|
                m1 == #[trigger] m.after(access).after_all(log) && match crate::devices::queues::walk(
                    ring,
                    m.regions,
                    h,
                    ring.size as nat,
                    Seq::empty(),
                    log,
                ) {
                    None => false,
                    Some(Ok(d)) => r == Ok::<Option<(u16, Seq<Descriptor>)>, DeviceError>(
                        Some((h, d)),
                    ),
                    Some(Err(e)) => r == Err::<Option<(u16, Seq<Descriptor>)>, DeviceError>(e),
                };
            lemma_after_all(m.after(access), log);
            lemma_goes_on(m0, m.after(access), m1);
        }
    }
}

/// Handing a chain back advances the used ring by one entry.
pub(crate) proof fn lemma_complete(
    q0: QueuesView,
    index: int,
    m0: Memory,
    head: u16,
    len: u32,
    q1: QueuesView,
    m1: Memory,
    r: Result<(), DeviceError>,
)
    requires
        0 <= index < q0.rings.len(),
        complete_rel(q0, index, m0, head, len, q1, m1, r),
    ensures
        goes_on(m0, m1),
        q1.rings.len() == q0.rings.len(),
        q1.rings[index].next_avail == q0.rings[index].next_avail,
        r is Ok ==> {
            &&& q1.rings[index].next_used == (q0.rings[index].next_used + 1) % 0x1_0000
            &&& q1.interrupt == q0.interrupt | 1
            &&& m1.accesses == m0.accesses.push(
                Access::Used {
                    addr: q0.rings[index].used_ring,
                    index: q0.rings[index].next_used,
                    head,
                    len,
                    ok: true,
                },
            )
        },
{
    let ring = q0.rings[index];
    if !ring.can_use(m0.regions, head) {
        if head < ring.size {
            lemma_after(
                m0,
                Access::UsedCut { addr: ring.used_ring, index: ring.next_used, head, len },
            );
        } else {
            assert(m0.accesses.take(m0.accesses.len() as int) =~= m0.accesses);
        }
    } else {
        lemma_after(m0, crate::ring::used_access(ring, head, len, r is Ok));
    }
}

/// The descriptor that starts `length(body.take(i))` bytes into the chain holds
/// bytes of the header.
pub open spec fn in_header(body: Seq<Descriptor>, i: int) -> bool {
    body[i].len > 0 && length(body.take(i)) < 16
}

/// It holds bytes that follow the header.
pub open spec fn in_payload(body: Seq<Descriptor>, i: int) -> bool {
    body[i].len > 0 && length(body.take(i)) + body[i].len > 16
}

/// The device may write the buffer.
pub open spec fn device_writes(d: Descriptor) -> bool {
    d.flags & 2 != 0
}

proof fn lemma_device_writes(d: Descriptor)
    ensures
        d.writable() == device_writes(d),
{
    let f = d.flags;
    assert((f / 2) % 2 == 1 <==> f & 2 != 0) by (bit_vector);
}

proof fn lemma_length_front(body: Seq<Descriptor>, i: int)
    requires
        0 < i <= body.len(),
    ensures
        length(body.take(i)) == body[0].len + length(body.skip(1).take(i - 1)),
    decreases i,
{
    let a = body.take(i);
    let b = body.skip(1).take(i - 1);
    assert(a.last() == body[i - 1]);
    assert(a.drop_last() =~= body.take(i - 1));
    if i == 1 {
        assert(b =~= Seq::empty());
        assert(body.take(0) =~= Seq::empty());
        assert(length(body.take(0)) == 0);
    } else {
        lemma_length_front(body, i - 1);
        assert(b.last() == body[i - 1]);
        assert(b.drop_last() =~= body.skip(1).take(i - 2));
    }
}

pub(crate) proof fn lemma_length_nonneg(body: Seq<Descriptor>)
    ensures
        length(body) >= 0,
    decreases body.len(),
{
    if body.len() > 0 {
        lemma_length_nonneg(body.drop_last());
    }
}

/// The bytes of the header can be written where one of their descriptors can.
proof fn lemma_header_writable(body: Seq<Descriptor>, left: int)
    ensures
        header_writable(body, left) <==> exists|i: int|
            0 <= i < body.len() && (#[trigger] body[i]).len > 0 && body[i].writable() && length(
                body.take(i),
            ) < left,
    decreases body.len(),
{
    if body.len() > 0 && left > 0 {
        let rest = body.skip(1);
        lemma_header_writable(rest, left - body[0].len);
        assert(body.take(0) =~= Seq::empty());
        assert(length(body.take(0)) == 0);
        if header_writable(body, left) {
            if body[0].len > 0 && body[0].writable() {
                assert(length(body.take(0)) < left);
            } else {
                let i = choose|i: int|
                    0 <= i < rest.len() && (#[trigger] rest[i]).len > 0 && rest[i].writable()
                        && length(rest.take(i)) < left - body[0].len;
                lemma_length_front(body, i + 1);
                assert(rest[i] == body[i + 1]);
            }
        }
        if exists|i: int|
            0 <= i < body.len() && (#[trigger] body[i]).len > 0 && body[i].writable() && length(
                body.take(i),
            ) < left {
            let i = choose|i: int|
                0 <= i < body.len() && (#[trigger] body[i]).len > 0 && body[i].writable() && length(
                    body.take(i),
                ) < left;
            if i > 0 {
                lemma_length_front(body, i);
                assert(rest[i - 1] == body[i]);
            }
        }
    } else {
        assert forall|i: int| 0 <= i < body.len() implies length(#[trigger] body.take(i)) >= 0 by {
            lemma_length_nonneg(body.take(i));
        }
    }
}

/// The payload is what holds bytes beyond the header.
proof fn lemma_payload(body: Seq<Descriptor>, left: int, writable: bool)
    requires
        left >= 0,
    ensures
        all_writable(payload(body, left), writable) <==> forall|i: int|
            0 <= i < body.len() && (#[trigger] body[i]).len > 0 && length(body.take(i))
                + body[i].len > left ==> body[i].writable() == writable,
    decreases body.len(),
{
    if body.len() > 0 {
        let d = body[0];
        let rest = body.skip(1);
        let h = if left <= d.len {
            left
        } else {
            d.len as int
        };
        lemma_payload(rest, left - h, writable);
        let tail = payload(rest, left - h);
        assert(body.take(0) =~= Seq::empty());
        assert(length(body.take(0)) == 0);
        let whole = payload(body, left);
        if d.len > h {
            assert(whole == seq![d] + tail);
            assert(all_writable(whole, writable) <==> d.writable() == writable && all_writable(
                tail,
                writable,
            )) by {
                if all_writable(whole, writable) {
                    assert(whole[0] == d);
                    assert forall|i: int| 0 <= i < tail.len() implies (
                    #[trigger] tail[i]).writable() == writable by {
                        assert(whole[i + 1] == tail[i]);
                    }
                }
                if d.writable() == writable && all_writable(tail, writable) {
                    assert forall|i: int| 0 <= i < whole.len() implies (
                    #[trigger] whole[i]).writable() == writable by {
                        if i > 0 {
                            assert(whole[i] == tail[i - 1]);
                        }
                    }
                }
            }
        }
        lemma_payload_step(body, left, h, writable);
    }
}

proof fn lemma_payload_step(body: Seq<Descriptor>, left: int, h: int, writable: bool)
    requires
        body.len() > 0,
        left >= 0,
        h == if left <= body[0].len {
            left
        } else {
            body[0].len as int
        },
    ensures
        (forall|i: int|
            0 <= i < body.len() && (#[trigger] body[i]).len > 0 && length(body.take(i))
                + body[i].len > left ==> body[i].writable() == writable) <==> (body[0].len > h
            ==> body[0].writable() == writable) && (forall|i: int|
            0 <= i < body.skip(1).len() && (#[trigger] body.skip(1)[i]).len > 0 && length(
                body.skip(1).take(i),
            ) + body.skip(1)[i].len > left - h ==> body.skip(1)[i].writable() == writable),
{
    let rest = body.skip(1);
    assert(body.take(0) =~= Seq::empty());
    assert(length(body.take(0)) == 0);
    assert forall|i: int| 0 <= i < rest.len() && (#[trigger] rest[i]).len > 0 implies (length(
        rest.take(i),
    ) + rest[i].len > left - h <==> length(body.take(i + 1)) + body[i + 1].len > left)
        && rest[i] == body[i + 1] by {
        lemma_length_front(body, i + 1);
        lemma_length_nonneg(rest.take(i));
    }
    let all_body = forall|i: int|
        0 <= i < body.len() && (#[trigger] body[i]).len > 0 && length(body.take(i)) + body[i].len
            > left ==> body[i].writable() == writable;
    let all_rest = forall|i: int|
        0 <= i < rest.len() && (#[trigger] rest[i]).len > 0 && length(rest.take(i)) + rest[i].len
            > left - h ==> rest[i].writable() == writable;
    if all_body {
        assert(body[0].len > h ==> body[0].writable() == writable);
        assert forall|i: int|
            0 <= i < rest.len() && (#[trigger] rest[i]).len > 0 && length(rest.take(i))
                + rest[i].len > left - h implies rest[i].writable() == writable by {
            assert(rest[i] == body[i + 1]);
        }
    }
    if (body[0].len > h ==> body[0].writable() == writable) && all_rest {
        assert forall|i: int|
            0 <= i < body.len() && (#[trigger] body[i]).len > 0 && length(body.take(i))
                + body[i].len > left implies body[i].writable() == writable by {
            if i > 0 {
                assert(rest[i - 1] == body[i]);
            }
        }
    }
}

/// A chain is a disk request: it ends in a byte of its own that the device may
/// write, sixteen bytes that it may only read come first, and what lies between
/// is no longer than one request may be.
pub open spec fn is_request(desc: Seq<Descriptor>, regions: Seq<(u64, u64)>) -> bool {
    let body = desc.drop_last();
    &&& desc.len() >= 2
    &&& reachable(regions, desc)
    &&& device_writes(desc.last()) && desc.last().len == 1
    &&& 16 <= length(body) <= 16 + 0x10_0000
    &&& forall|i: int|
        0 <= i < body.len() && #[trigger] in_header(body, i) ==> !device_writes(body[i])
}

/// All bytes between the header and the last byte are for the device to write,
/// or none is.
pub open spec fn goes_to_guest(body: Seq<Descriptor>, to_guest: bool) -> bool {
    forall|i: int|
        0 <= i < body.len() && #[trigger] in_payload(body, i) ==> device_writes(body[i])
            == to_guest
}

/// The first four bytes of a header, as a number.
pub open spec fn kind_of(h: Seq<u8>) -> int {
    h[0] + 0x100 * h[1] + 0x1_0000 * h[2] + 0x100_0000 * h[3]
}

/// The last eight bytes of a header, as a number.
pub open spec fn sector_of(h: Seq<u8>) -> int {
    h[8] + 0x100 * h[9] + 0x1_0000 * h[10] + 0x100_0000 * h[11] + 0x1_0000_0000 * h[12]
        + 0x100_0000_0000 * h[13] + 0x1_0000_0000_0000 * h[14] + 0x100_0000_0000_0000 * h[15]
}

/// What a disk is asked to do for a request with header `h` and `size` bytes of
/// data at `at`: which calls it gets, with which answer `x` and, for a flush
/// behind a write, `y`; the status; and how many bytes the guest may look at.
pub open spec fn carried_out<BS: BlockStorage>(
    h: Seq<u8>,
    body: Seq<Descriptor>,
    at: Seq<int>,
    negotiated: u64,
    b0: Block<BS>,
    calls: Seq<BlockCall>,
    data: Seq<Segment>,
    x: Result<(), StorageError>,
    y: Result<(), StorageError>,
    status: u8,
    used: u32,
) -> bool {
    let kind = kind_of(h);
    let size = at.len();
    let flushes = negotiated & 0x200 != 0;
    let fits = size % 512 == 0 && 512 * sector_of(h) + size <= b0.disk.capacity();
    let offset = (512 * sector_of(h)) as u64;
    let fine = |r: Result<(), StorageError>|
        if r is Ok {
            0u8
        } else {
            1u8
        };
    if kind == 0 && fits && goes_to_guest(body, true) {
        &&& calls == seq![BlockCall::Read { offset, data, result: x }]
        &&& places(data) == at
        &&& status == fine(x)
        &&& used == if x is Ok {
            size + 1
        } else {
            1
        }
    } else if kind == 1 && fits && goes_to_guest(body, false) && !b0.disk.sealed() {
        let write = BlockCall::Write { offset, data, result: x };
        &&& places(data) == at
        &&& used == 1
        &&& if flushes || x is Err {
            calls == seq![write] && status == fine(x)
        } else {
            calls == seq![write, BlockCall::Flush { result: y }] && status == fine(y)
        }
    } else if kind == 4 && size == 0 && flushes {
        calls == seq![BlockCall::Flush { result: x }] && status == fine(x) && used == 1
    } else if kind == 8 && size >= 20 && goes_to_guest(body, true) {
        calls == Seq::<BlockCall>::empty() && status == 0 && used == 21
    } else if kind == 0 || kind == 1 || kind == 4 || kind == 8 {
        calls == Seq::<BlockCall>::empty() && status == 1 && used == 1
    } else {
        calls == Seq::<BlockCall>::empty() && status == 2 && used == 1
    }
}

/// The accesses of a request: its header is read, byte by byte; then its data is
/// accessed by the disk alone, or the name of the disk is written; and at last
/// the status.
pub open spec fn accessed<BS: BlockStorage>(
    h: Seq<u8>,
    at: Seq<int>,
    b0: Block<BS>,
    data: Seq<Segment>,
    calls: Seq<BlockCall>,
    status: u8,
    header: Seq<Access>,
    middle: Seq<Access>,
    log: Seq<Access>,
) -> bool {
    let n = at.len();
    &&& log == header + middle + seq![Access::Write { addr: at[n - 1] as u64, data: seq![status] }]
    &&& trace(header) == laid(at.subrange(0, 16), h)
    &&& forall|i: int| 0 <= i < header.len() ==> (#[trigger] header[i]) is Read
    &&& if calls.len() > 0 && !(calls[0] is Flush) {
        forall|i: int|
            0 <= i < middle.len() ==> touches(#[trigger] middle[i], data, calls[0] is Read)
    } else if kind_of(h) == 8 && status == 0 {
        &&& trace(middle) == laid(at.subrange(16, 36), b0.id@)
        &&& forall|i: int| 0 <= i < middle.len() ==> (#[trigger] middle[i]) is Write
    } else {
        middle == Seq::<Access>::empty()
    }
}

proof fn lemma_header_numbers(h: Seq<u8>)
    requires
        h.len() == 16,
    ensures
        le32(h, 0) == kind_of(h),
        le64(h, 8) == sector_of(h),
        0 <= kind_of(h) <= u32::MAX,
        0 <= sector_of(h) <= u64::MAX,
{
}

proof fn lemma_request_shape(desc: Seq<Descriptor>, regions: Seq<(u64, u64)>)
    requires
        ordered(regions),
    ensures
        malformed(desc, regions) is None <==> is_request(desc, regions),
        desc.len() > 0 ==> length(desc) == length(desc.drop_last()) + desc.last().len,
{
    if desc.len() > 0 {
        let body = desc.drop_last();
        lemma_header_writable(body, 16);
        lemma_device_writes(desc.last());
        assert forall|i: int| 0 <= i < body.len() implies (#[trigger] body[i]).writable()
            == device_writes(body[i]) by {
            lemma_device_writes(body[i]);
        }
        if header_writable(body, 16) {
            let i = choose|i: int|
                0 <= i < body.len() && (#[trigger] body[i]).len > 0 && body[i].writable() && length(
                    body.take(i),
                ) < 16;
            assert(in_header(body, i));
        }
    }
}

proof fn lemma_directions(body: Seq<Descriptor>, to_guest: bool)
    ensures
        all_writable(payload(body, 16), to_guest) <==> goes_to_guest(body, to_guest),
{
    lemma_payload(body, 16, to_guest);
    assert forall|i: int| 0 <= i < body.len() implies (#[trigger] body[i]).writable()
        == device_writes(body[i]) by {
        lemma_device_writes(body[i]);
    }
    if goes_to_guest(body, to_guest) {
        assert forall|i: int|
            0 <= i < body.len() && (#[trigger] body[i]).len > 0 && length(body.take(i))
                + body[i].len > 16 implies body[i].writable() == to_guest by {
            assert(in_payload(body, i));
        }
    }
}

/// Every request does what its header says: the sector and the kind are those of
/// the header, the bytes are those between the header and the last one, a read or
/// write that does not lie on the disk in whole sectors reaches it not at all,
/// the status says how it went, and a chain that is no request is refused
/// untouched.
pub proof fn disk_requests_do_what_they_say<BS: BlockStorage>(
    b0: Block<BS>,
    m0: Memory,
    desc: Seq<Descriptor>,
    negotiated: u64,
    b1: Block<BS>,
    m1: Memory,
    r: Result<u32, DeviceError>,
)
    requires
        ordered(m0.regions),
        b0.id@.len() == 20,
        request_rel(b0, m0, desc, negotiated, b1, m1, r),
    ensures
        r is Ok <==> is_request(desc, m0.regions),
        r is Err ==> b1 == b0 && m1 == m0,
        r is Ok ==> b1.name == b0.name && b1.id == b0.id,
        r is Ok ==> chain_places(desc).len() == length(desc) && length(desc) >= 17,
        r is Ok ==> exists|
            h: Seq<u8>,
            calls: Seq<BlockCall>,
            data: Seq<Segment>,
            x: Result<(), StorageError>,
            y: Result<(), StorageError>,
            status: u8,
            header: Seq<Access>,
            middle: Seq<Access>,
            log: Seq<Access>,
        |
            {
                let at = chain_places(desc);
                let body = desc.drop_last();
                &&& #[trigger] through((h, calls, data, x, y, status, header, middle, log))
                &&& h.len() == 16
                &&& b1.disk.calls() == b0.disk.calls() + calls
                &&& m1 == m0.after_all(log)
                &&& carried_out(
                    h,
                    body,
                    at.subrange(16, at.len() - 1),
                    negotiated,
                    b0,
                    calls,
                    data,
                    x,
                    y,
                    status,
                    r->Ok_0,
                )
                &&& accessed(h, at, b0, data, calls, status, header, middle, log)
            },
{
    lemma_request_shape(desc, m0.regions);
    if r is Ok {
        lemma_request_outcome(b0, m0, desc, negotiated, b1, m1, r);
    }
}

proof fn lemma_request_outcome<BS: BlockStorage>(
    b0: Block<BS>,
    m0: Memory,
    desc: Seq<Descriptor>,
    negotiated: u64,
    b1: Block<BS>,
    m1: Memory,
    r: Result<u32, DeviceError>,
)
    requires
        ordered(m0.regions),
        b0.id@.len() == 20,
        request_rel(b0, m0, desc, negotiated, b1, m1, r),
        malformed(desc, m0.regions) is None,
    ensures
        b1.name == b0.name && b1.id == b0.id,
        chain_places(desc).len() == length(desc) && length(desc) >= 17,
        exists|
            h: Seq<u8>,
            calls: Seq<BlockCall>,
            data: Seq<Segment>,
            x: Result<(), StorageError>,
            y: Result<(), StorageError>,
            status: u8,
            header: Seq<Access>,
            middle: Seq<Access>,
            log: Seq<Access>,
        |
            {
                let at = chain_places(desc);
                let body = desc.drop_last();
                &&& #[trigger] through((h, calls, data, x, y, status, header, middle, log))
                &&& h.len() == 16
                &&& b1.disk.calls() == b0.disk.calls() + calls
                &&& m1 == m0.after_all(log)
                &&& carried_out(
                    h,
                    body,
                    at.subrange(16, at.len() - 1),
                    negotiated,
                    b0,
                    calls,
                    data,
                    x,
                    y,
                    status,
                    r->Ok_0,
                )
                &&& accessed(h, at, b0, data, calls, status, header, middle, log)
            },
{
    let all = spread(m0.regions, desc);
    let body = desc.drop_last();
    let size = length(body) - 16;
    lemma_request_shape(desc, m0.regions);
    segments_are_the_bytes_of_the_chain(m0.regions, desc);
    crate::devices::buffers::spread_is_complete(m0.regions, desc);
    let at = chain_places(desc);
    assert(at.last() == desc.last().addr) by {
        assert(at == chain_places(body) + crate::devices::places::from(
            desc.last().addr as int,
            1,
        ));
    }
    let (h, m, status, used) = choose|h: Seq<u8>, m: Memory, status: u8, used: u32|
        {
            &&& #[trigger] through((h, m, status, used))
            &&& h.len() == 16
            &&& execute_rel(
                command_of(
                    le32(h, 0) as u32,
                    le64(h, 8) as u64,
                    size as usize,
                    payload(body, 16),
                    negotiated,
                    b0.disk.sealed(),
                    b0.disk.capacity(),
                ),
                span(all, 16, size),
                size,
                b0,
                m0.after_all(reads(span(all, 0, 16), h)),
                b1,
                m,
                status,
                used,
            )
            &&& m1 == m.after(Access::Write { addr: desc.last().addr, data: seq![status] })
            &&& r == Ok::<u32, DeviceError>(used)
        };
    a_span_is_a_part_of_the_bytes(all, 0, 16);
    a_span_is_a_part_of_the_bytes(all, 16, size);
    crate::devices::buffers::lemma_span(m0.regions, all, 0, 16);
    crate::devices::buffers::lemma_span(m0.regions, all, 16, size);
    let header = reads(span(all, 0, 16), h);
    transfers_go_byte_by_byte(span(all, 0, 16), h);
    let buffers = span(all, 16, size);
    lemma_header_numbers(h);
    lemma_directions(body, true);
    lemma_directions(body, false);
    let mid = m0.after_all(header);
    let c = command_of(
        le32(h, 0) as u32,
        le64(h, 8) as u64,
        size as usize,
        payload(body, 16),
        negotiated,
        b0.disk.sealed(),
        b0.disk.capacity(),
    );
    let tail = seq![Access::Write { addr: desc.last().addr, data: seq![status] }];
    let old = b0.disk.calls();
    let none = Ok::<(), StorageError>(());
    match c {
        Ok(Command::Read { offset }) => {
            let x = choose|x: Result<(), StorageError>|
                {
                    &&& #[trigger] through(x)
                    &&& status == crate::devices::block::status_of(x)
                    &&& used == if x is Ok {
                        1 + size
                    } else {
                        1
                    }
                    &&& b1.disk.calls() == old.push(
                        BlockCall::Read { offset, data: buffers, result: x },
                    )
                };
            let middle = lemma_handled(mid, m, buffers, true);
            let calls = seq![BlockCall::Read { offset, data: buffers, result: x }];
            let log = header + middle + tail;
            assert(m1.accesses =~= m0.accesses + log);
            assert(b1.disk.calls() =~= old + calls);
            assert(through((h, calls, buffers, x, none, status, header, middle, log)));
        },
        Ok(Command::Write { offset, through: flush }) => {
            let (x, y) = choose|x: Result<(), StorageError>, y: Result<(), StorageError>|
                {
                    let write = BlockCall::Write { offset, data: buffers, result: x };
                    &&& #[trigger] through((x, y))
                    &&& if x is Ok && flush {
                        status == crate::devices::block::status_of(y) && b1.disk.calls()
                            == old.push(write).push(BlockCall::Flush { result: y })
                    } else {
                        status == crate::devices::block::status_of(x) && b1.disk.calls()
                            == old.push(write)
                    }
                };
            let middle = lemma_handled(mid, m, buffers, false);
            let write = BlockCall::Write { offset, data: buffers, result: x };
            let calls = if x is Ok && flush {
                seq![write, BlockCall::Flush { result: y }]
            } else {
                seq![write]
            };
            let log = header + middle + tail;
            assert(m1.accesses =~= m0.accesses + log);
            assert(b1.disk.calls() =~= old + calls);
            assert(through((h, calls, buffers, x, y, status, header, middle, log)));
        },
        Ok(Command::Flush) => {
            let x = choose|x: Result<(), StorageError>|
                #[trigger] through(x) && status == crate::devices::block::status_of(x)
                    && b1.disk.calls() == old.push(BlockCall::Flush { result: x });
            let calls = seq![BlockCall::Flush { result: x }];
            let middle = Seq::<Access>::empty();
            let log = header + middle + tail;
            assert(m1.accesses =~= m0.accesses + log);
            assert(b1.disk.calls() =~= old + calls);
            assert(through((h, calls, buffers, x, none, status, header, middle, log)));
        },
        Ok(Command::Identify) => {
            a_span_is_a_part_of_the_bytes(buffers, 0, 20);
            crate::devices::buffers::lemma_span(m0.regions, buffers, 0, 20);
            let middle = writes(span(buffers, 0, 20), b0.id@);
            transfers_go_byte_by_byte(span(buffers, 0, 20), b0.id@);
            assert(at.subrange(16, 16 + size).subrange(0, 20) =~= at.subrange(16, 36));
            let calls = Seq::<BlockCall>::empty();
            let log = header + middle + tail;
            assert(m1.accesses =~= m0.accesses + log);
            assert(b1.disk.calls() =~= old + calls);
            assert(through((h, calls, buffers, none, none, status, header, middle, log)));
        },
        _ => {
            let calls = Seq::<BlockCall>::empty();
            let middle = Seq::<Access>::empty();
            let log = header + middle + tail;
            assert(m1.accesses =~= m0.accesses + log);
            assert(b1.disk.calls() =~= old + calls);
            assert(through((h, calls, buffers, none, none, status, header, middle, log)));
        },
    }
}

proof fn lemma_handled(m0: Memory, m1: Memory, segments: Seq<Segment>, may_write: bool) -> (log: Seq<
    Access,
>)
    requires
        handled(m0, m1, segments, may_write),
    ensures
        m1 == m0.after_all(log),
        forall|i: int| 0 <= i < log.len() ==> touches(#[trigger] log[i], segments, may_write),
{
    choose|log: Seq<Access>|
        m1 == #[trigger] m0.after_all(log) && forall|i: int|
            0 <= i < log.len() ==> touches(#[trigger] log[i], segments, may_write)
}

/// The used elements in `log`, in order: the head and the length of each.
pub open spec fn handed_back(log: Seq<Access>) -> Seq<(u16, u32)>
    decreases log.len(),
{
    if log.len() == 0 {
        Seq::empty()
    } else {
        match log.last() {
            Access::Used { head, len, ok, .. } => handed_back(log.drop_last()).push((head, len)),
            _ => handed_back(log.drop_last()),
        }
    }
}

/// The heads in `log` that were taken off the available ring, in order.
pub open spec fn taken(log: Seq<Access>) -> Seq<u16>
    decreases log.len(),
{
    if log.len() == 0 {
        Seq::empty()
    } else {
        match log.last() {
            Access::Head { value: Some(Some(h)), .. } => taken(log.drop_last()).push(h),
            _ => taken(log.drop_last()),
        }
    }
}

/// The heads alone.
pub open spec fn heads(list: Seq<(u16, u32)>) -> Seq<u16> {
    list.map_values(|e: (u16, u32)| e.0)
}

pub(crate) proof fn lemma_log_concat(a: Seq<Access>, b: Seq<Access>)
    ensures
        handed_back(a + b) == handed_back(a) + handed_back(b),
        taken(a + b) == taken(a) + taken(b),
    decreases b.len(),
{
    if b.len() == 0 {
        assert(a + b =~= a);
        assert(handed_back(a) + handed_back(b) =~= handed_back(a));
        assert(taken(a) + taken(b) =~= taken(a));
    } else {
        assert((a + b).drop_last() =~= a + b.drop_last());
        assert((a + b).last() == b.last());
        lemma_log_concat(a, b.drop_last());
        assert(handed_back(a + b) =~= handed_back(a) + handed_back(b));
        assert(taken(a + b) =~= taken(a) + taken(b));
    }
}

/// Accesses that are only reads and writes of bytes take and hand back nothing.
pub(crate) proof fn lemma_plain_log(log: Seq<Access>)
    requires
        forall|i: int|
            0 <= i < log.len() ==> (#[trigger] log[i]) is Read || log[i] is Write,
    ensures
        handed_back(log) == Seq::<(u16, u32)>::empty(),
        taken(log) == Seq::<u16>::empty(),
    decreases log.len(),
{
    if log.len() > 0 {
        let fewer = log.drop_last();
        assert forall|i: int| 0 <= i < fewer.len() implies (#[trigger] fewer[i]) is Read
            || fewer[i] is Write by {
            assert(fewer[i] == log[i]);
        }
        assert(log[log.len() - 1] == log.last());
        lemma_plain_log(fewer);
    }
}

/// What was accessed between `m0` and `m1`.
pub open spec fn between(m0: Memory, m1: Memory) -> Seq<Access> {
    m1.accesses.skip(m0.accesses.len() as int)
}

pub(crate) proof fn lemma_between(m0: Memory, m1: Memory, m2: Memory)
    requires
        goes_on(m0, m1),
        goes_on(m1, m2),
    ensures
        goes_on(m0, m2),
        between(m0, m2) == between(m0, m1) + between(m1, m2),
{
    lemma_goes_on(m0, m1, m2);
    let n = m1.accesses.len() as int;
    assert(m2.accesses =~= m2.accesses.take(n) + m2.accesses.skip(n));
    assert(between(m0, m2) =~= between(m0, m1) + between(m1, m2));
}

/// A chain that was walked is read off the descriptor table.
proof fn lemma_walk_reads(
    ring: crate::ring::Ring,
    regions: Seq<(u64, u64)>,
    index: u16,
    steps: nat,
    done: Seq<Descriptor>,
    log: Seq<Access>,
)
    requires
        crate::devices::queues::walk(ring, regions, index, steps, done, log) is Some,
    ensures
        forall|i: int| 0 <= i < log.len() ==> (#[trigger] log[i]) is Read,
    decreases steps,
{
    if steps > 0 && index < ring.size && log.len() > 0 {
        if let Access::Read { addr, data } = log[0] {
            let d = Descriptor::decode(data);
            let rest = log.skip(1);
            if !d.indirect() && d.sound(regions) && d.chained() {
                lemma_walk_reads(ring, regions, d.next, (steps - 1) as nat, done.push(d), rest);
            }
            assert forall|i: int| 0 <= i < log.len() implies (#[trigger] log[i]) is Read by {
                if i > 0 {
                    assert(rest[i - 1] == log[i]);
                }
            }
        }
    }
}

/// Taking a chain takes one head, and hands nothing back.
pub(crate) proof fn lemma_pop_log(
    q0: QueuesView,
    index: int,
    m0: Memory,
    q1: QueuesView,
    m1: Memory,
    r: Result<Option<(u16, Seq<Descriptor>)>, DeviceError>,
)
    requires
        0 <= index < q0.rings.len(),
        pop_rel(q0, index, m0, q1, m1, r),
    ensures
        goes_on(m0, m1),
        handed_back(between(m0, m1)) == Seq::<(u16, u32)>::empty(),
        r matches Ok(Some(c)) ==> taken(between(m0, m1)) == seq![c.0],
        r matches Ok(None) ==> taken(between(m0, m1)) == Seq::<u16>::empty(),
{
    lemma_pop(q0, index, m0, q1, m1, r);
    let (m, n) = choose|m: Memory, n: Result<u16, DeviceError>|
        #[trigger] available_rel(q0.rings[index], m0, m, n) && match n {
            Err(e) => q1 == q0 && m1 == m && r == Err::<
                Option<(u16, Seq<Descriptor>)>,
                DeviceError,
            >(e),
            Ok(count) => if count == 0 {
                q1 == q0 && m1 == m && r == Ok::<Option<(u16, Seq<Descriptor>)>, DeviceError>(None)
            } else {
                exists|head: Option<Option<u16>>|
                    #[trigger] crate::devices::queues::take_rel(q0, index, m, q1, m1, r, head)
            },
        };
    lemma_available_log(q0, index, m0, m, n);
    if n is Ok && n->Ok_0 != 0 {
        let head = choose|head: Option<Option<u16>>|
            #[trigger] crate::devices::queues::take_rel(q0, index, m, q1, m1, r, head);
        let ring = q0.rings[index];
        let access = crate::ring::head_access(ring, head);
        let next = m.after(access);
        lemma_after(m, access);
        assert(between(m, next) =~= seq![access]);
        lemma_between(m0, m, next);
        lemma_log_concat(between(m0, m), seq![access]);
        assert(seq![access].drop_last() =~= Seq::empty());
        reveal_with_fuel(handed_back, 2);
        reveal_with_fuel(taken, 2);
        assert(handed_back(between(m0, next)) =~= Seq::empty());
        if let Some(Some(h)) = head {
            let log = choose|log: Seq<Access>|
                m1 == #[trigger] next.after_all(log) && match crate::devices::queues::walk(
                    ring,
                    next.regions,
                    h,
                    ring.size as nat,
                    Seq::empty(),
                    log,
                ) {
                    None => false,
                    Some(Ok(d)) => r == Ok::<Option<(u16, Seq<Descriptor>)>, DeviceError>(
                        Some((h, d)),
                    ),
                    Some(Err(e)) => r == Err::<Option<(u16, Seq<Descriptor>)>, DeviceError>(e),
                };
            lemma_walk_reads(ring, next.regions, h, ring.size as nat, Seq::empty(), log);
            lemma_plain_log(log);
            lemma_after_all(next, log);
            lemma_between(m0, next, m1);
            lemma_log_concat(between(m0, next), log);
            assert(taken(between(m0, next)) =~= seq![h]);
            assert(taken(between(m0, m1)) =~= seq![h]);
            assert(handed_back(between(m0, m1)) =~= Seq::empty());
        }
    }
}

pub(crate) proof fn lemma_available_log(
    q0: QueuesView,
    index: int,
    m0: Memory,
    m1: Memory,
    r: Result<u16, DeviceError>,
)
    requires
        available_rel(q0.rings[index], m0, m1, r),
    ensures
        goes_on(m0, m1),
        handed_back(between(m0, m1)) == Seq::<(u16, u32)>::empty(),
        taken(between(m0, m1)) == Seq::<u16>::empty(),
        r matches Ok(count) ==> exists|idx: u16|
            #[trigger] through(idx) && between(m0, m1) == seq![
                Access::AvailIdx { addr: q0.rings[index].avail_ring, value: Some(idx) },
            ] && (q0.rings[index].next_avail + count) % 0x1_0000 == idx && count
                <= q0.rings[index].size,
{
    lemma_available(q0, index, m0, m1, r);
    let ring = q0.rings[index];
    if ring.valid(m0.regions) {
        let idx = choose|idx: Option<u16>|
            m1 == m0.after(#[trigger] idx_access(ring, idx)) && r == pending(ring, idx);
        assert(between(m0, m1) =~= seq![idx_access(ring, idx)]);
        assert(seq![idx_access(ring, idx)].drop_last() =~= Seq::empty());
        reveal_with_fuel(handed_back, 2);
        reveal_with_fuel(taken, 2);
        if r is Ok {
            assert(through(idx->0));
        }
    } else {
        assert(between(m0, m1) =~= Seq::empty());
    }
}

proof fn lemma_request_log<BS: BlockStorage>(
    b0: Block<BS>,
    m0: Memory,
    desc: Seq<Descriptor>,
    negotiated: u64,
    b1: Block<BS>,
    m1: Memory,
    r: Result<u32, DeviceError>,
)
    requires
        request_rel(b0, m0, desc, negotiated, b1, m1, r),
        ordered(m0.regions),
        b0.id@.len() == 20,
    ensures
        goes_on(m0, m1),
        handed_back(between(m0, m1)) == Seq::<(u16, u32)>::empty(),
        taken(between(m0, m1)) == Seq::<u16>::empty(),
        b1.id == b0.id,
{
    disk_requests_do_what_they_say(b0, m0, desc, negotiated, b1, m1, r);
    if r is Ok {
        let (h, calls, data, x, y, status, header, middle, log) = choose|
            h: Seq<u8>,
            calls: Seq<BlockCall>,
            data: Seq<Segment>,
            x: Result<(), StorageError>,
            y: Result<(), StorageError>,
            status: u8,
            header: Seq<Access>,
            middle: Seq<Access>,
            log: Seq<Access>,
        |
            {
                let at = chain_places(desc);
                &&& #[trigger] through((h, calls, data, x, y, status, header, middle, log))
                &&& m1 == m0.after_all(log)
                &&& accessed(h, at, b0, data, calls, status, header, middle, log)
            };
        assert forall|i: int| 0 <= i < log.len() implies (#[trigger] log[i]) is Read
            || log[i] is Write by {
            if i < header.len() {
                assert(log[i] == header[i]);
            } else if i < header.len() + middle.len() {
                assert(log[i] == middle[i - header.len()]);
            }
        }
        lemma_plain_log(log);
        lemma_after_all(m0, log);
    } else {
        assert(m0.accesses.take(m0.accesses.len() as int) =~= m0.accesses);
        assert(between(m0, m1) =~= Seq::empty());
    }
}

proof fn lemma_serve_one<BS: BlockStorage>(
    b0: Block<BS>,
    q0: QueuesView,
    m0: Memory,
    b1: Block<BS>,
    q1: QueuesView,
    m1: Memory,
    r: Result<(), DeviceError>,
)
    requires
        serve_one(b0, q0, m0, b1, q1, m1, r),
        q0.rings.len() == 1,
        ordered(m0.regions),
        b0.id@.len() == 20,
    ensures
        goes_on(m0, m1),
        q1.rings.len() == 1,
        b1.id@.len() == 20,
        r is Ok ==> {
            &&& q1.rings[0].next_avail == (q0.rings[0].next_avail + 1) % 0x1_0000
            &&& q1.rings[0].next_used == (q0.rings[0].next_used + 1) % 0x1_0000
            &&& q1.interrupt == q0.interrupt | 1
            &&& heads(handed_back(between(m0, m1))) == taken(between(m0, m1))
            &&& taken(between(m0, m1)).len() == 1
        },
{
    let (q, m, c) = choose|
        q: QueuesView,
        m: Memory,
        c: Result<Option<(u16, Seq<Descriptor>)>, DeviceError>,
    |
        #[trigger] pop_rel(q0, 0, m0, q, m, c) && match c {
            Err(e) => b1 == b0 && q1 == q && m1 == m && r == Err::<(), DeviceError>(e),
            Ok(None) => b1 == b0 && q1 == q && m1 == m && r == Err::<(), DeviceError>(
                DeviceError::MissingBlockChain,
            ),
            Ok(Some(chain)) => exists|n: Memory, used: Result<u32, DeviceError>|
                #[trigger] request_rel(b0, m, chain.1, q.negotiated, b1, n, used) && match used {
                    Err(e) => q1 == q && m1 == n && r == Err::<(), DeviceError>(e),
                    Ok(used) => complete_rel(q, 0, n, chain.0, used, q1, m1, r),
                },
        };
    lemma_pop(q0, 0, m0, q, m, c);
    lemma_pop_log(q0, 0, m0, q, m, c);
    if let Ok(Some(chain)) = c {
        let (n, used) = choose|n: Memory, used: Result<u32, DeviceError>|
            #[trigger] request_rel(b0, m, chain.1, q.negotiated, b1, n, used) && match used {
                Err(e) => q1 == q && m1 == n && r == Err::<(), DeviceError>(e),
                Ok(used) => complete_rel(q, 0, n, chain.0, used, q1, m1, r),
            };
        lemma_request_log(b0, m, chain.1, q.negotiated, b1, n, used);
        lemma_between(m0, m, n);
        lemma_log_concat(between(m0, m), between(m, n));
        if let Ok(len) = used {
            lemma_complete(q, 0, n, chain.0, len, q1, m1, r);
            lemma_between(m0, n, m1);
            lemma_log_concat(between(m0, n), between(n, m1));
            if r is Ok {
                let last = Access::Used {
                    addr: q.rings[0].used_ring,
                    index: q.rings[0].next_used,
                    head: chain.0,
                    len,
                    ok: true,
                };
                assert(between(n, m1) =~= seq![last]);
                assert(seq![last].drop_last() =~= Seq::empty());
                reveal_with_fuel(handed_back, 2);
                reveal_with_fuel(taken, 2);
                assert(handed_back(between(m0, m1)) =~= seq![(chain.0, len)]);
                assert(taken(between(m0, m1)) =~= seq![chain.0]);
                assert(heads(handed_back(between(m0, m1))) =~= seq![chain.0]);
            }
        }
    }
}

proof fn lemma_heads(a: Seq<(u16, u32)>, b: Seq<(u16, u32)>)
    ensures
        heads(a + b) == heads(a) + heads(b),
{
    assert(heads(a + b) =~= heads(a) + heads(b));
}

/// One more after `n - 1` is `n`, as 16-bit indices count.
pub(crate) proof fn lemma_counted(x: u16, n: nat)
    requires
        n > 0,
    ensures
        ((x + (n - 1)) % 0x1_0000 + 1) % 0x1_0000 == (x + n) % 0x1_0000,
{
}

proof fn lemma_serve<BS: BlockStorage>(
    n: nat,
    b0: Block<BS>,
    q0: QueuesView,
    m0: Memory,
    b1: Block<BS>,
    q1: QueuesView,
    m1: Memory,
    r: Result<(), DeviceError>,
)
    requires
        serve_rel(n, b0, q0, m0, b1, q1, m1, r),
        q0.rings.len() == 1,
        ordered(m0.regions),
        b0.id@.len() == 20,
    ensures
        goes_on(m0, m1),
        q1.rings.len() == 1,
        b1.id@.len() == 20,
        r is Ok ==> {
            &&& q1.rings[0].next_avail == (q0.rings[0].next_avail + n) % 0x1_0000
            &&& q1.rings[0].next_used == (q0.rings[0].next_used + n) % 0x1_0000
            &&& heads(handed_back(between(m0, m1))) == taken(between(m0, m1))
            &&& taken(between(m0, m1)).len() == n
            &&& n > 0 ==> q1.interrupt & 1 != 0
            &&& n == 0 ==> q1.interrupt == q0.interrupt
        },
    decreases n,
{
    if n == 0 {
        assert(m0.accesses.take(m0.accesses.len() as int) =~= m0.accesses);
        assert(between(m0, m1) =~= Seq::empty());
        assert(heads(handed_back(between(m0, m1))) =~= taken(between(m0, m1)));
    } else {
        let (b, q, m, e) = choose|
            b: Block<BS>,
            q: QueuesView,
            m: Memory,
            e: Result<(), DeviceError>,
        |
            {
                &&& #[trigger] through((b, q, m, e))
                &&& serve_rel((n - 1) as nat, b0, q0, m0, b, q, m, e)
                &&& if e is Err {
                    b1 == b && q1 == q && m1 == m && r == e
                } else {
                    serve_one(b, q, m, b1, q1, m1, r)
                }
            };
        lemma_serve((n - 1) as nat, b0, q0, m0, b, q, m, e);
        if e is Ok {
            lemma_serve_one(b, q, m, b1, q1, m1, r);
            lemma_between(m0, m, m1);
            lemma_log_concat(between(m0, m), between(m, m1));
            if r is Ok {
                let i = q.interrupt;
                assert((i | 1) & 1 != 0) by (bit_vector);
                lemma_heads(handed_back(between(m0, m)), handed_back(between(m, m1)));
                lemma_counted(q0.rings[0].next_avail, n);
                lemma_counted(q0.rings[0].next_used, n);
            }
        }
    }
}

/// A notification that ends well has served every chain that the driver had made
/// available: the queue stands where the driver's index stood, as many elements
/// were put on the used ring, for the same heads in the same order, and the
/// driver is told where there was one.
pub proof fn a_notification_serves_every_chain<BS: BlockStorage>(
    d0: Block<BS>,
    q0: QueuesView,
    m0: Memory,
    d1: Block<BS>,
    q1: QueuesView,
    m1: Memory,
)
    requires
        <Block<BS> as VirtioDevice>::notify_rel(d0, 0, q0, m0, d1, q1, m1, Ok(())),
        q0.rings.len() == 1,
        ordered(m0.regions),
        d0.id@.len() == 20,
    ensures
        q1.rings.len() == 1,
        m1.accesses.len() > m0.accesses.len(),
        exists|idx: u16|
            {
                let made = (idx - q0.rings[0].next_avail) % 0x1_0000;
                &&& #[trigger] through(idx)
                &&& m1.accesses[m0.accesses.len() as int] == (Access::AvailIdx {
                    addr: q0.rings[0].avail_ring,
                    value: Some(idx),
                })
                &&& q1.rings[0].next_avail == idx
                &&& q1.rings[0].next_used == (q0.rings[0].next_used + made) % 0x1_0000
                &&& taken(between(m0, m1)).len() == made
                &&& heads(handed_back(between(m0, m1))) == taken(between(m0, m1))
                &&& made > 0 ==> q1.interrupt & 1 != 0
                &&& made == 0 ==> q1.interrupt == q0.interrupt
            },
{
    let r = Ok::<(), DeviceError>(());
    let (m, n) = choose|m: Memory, n: Result<u16, DeviceError>|
        #[trigger] available_rel(q0.rings[0], m0, m, n) && match n {
            Err(e) => false,
            Ok(count) => serve_rel(count as nat, d0, q0, m, d1, q1, m1, r),
        };
    lemma_available_log(q0, 0, m0, m, n);
    let count = n->Ok_0;
    let idx = choose|idx: u16|
        #[trigger] through(idx) && between(m0, m) == seq![
            Access::AvailIdx { addr: q0.rings[0].avail_ring, value: Some(idx) },
        ] && (q0.rings[0].next_avail + count) % 0x1_0000 == idx && count <= q0.rings[0].size;
    lemma_serve(count as nat, d0, q0, m, d1, q1, m1, r);
    lemma_between(m0, m, m1);
    lemma_log_concat(between(m0, m), between(m, m1));
    assert(between(m0, m1)[0] == m1.accesses[m0.accesses.len() as int]);
    assert(heads(handed_back(between(m0, m1))) =~= taken(between(m0, m1)));
    assert((idx - q0.rings[0].next_avail) % 0x1_0000 == count);
    assert(through(idx));
}

/// Each chain is handed back with the number of bytes that serving its request put
/// into it.
pub proof fn chains_come_back_with_their_count<BS: BlockStorage>(
    b0: Block<BS>,
    q0: QueuesView,
    m0: Memory,
    b1: Block<BS>,
    q1: QueuesView,
    m1: Memory,
)
    requires
        q0.rings.len() == 1,
        serve_one(b0, q0, m0, b1, q1, m1, Ok(())),
    ensures
        exists|q: QueuesView, m: Memory, chain: (u16, Seq<Descriptor>), n: Memory, used: u32|
            {
                &&& #[trigger] through((q, m, chain, n, used))
                &&& pop_rel(q0, 0, m0, q, m, Ok(Some(chain)))
                &&& request_rel(b0, m, chain.1, q0.negotiated, b1, n, Ok(used))
                &&& m1.accesses == n.accesses.push(
                    Access::Used {
                        addr: q0.rings[0].used_ring,
                        index: q0.rings[0].next_used,
                        head: chain.0,
                        len: used,
                        ok: true,
                    },
                )
            },
{
    let r = Ok::<(), DeviceError>(());
    let (q, m, c) = choose|
        q: QueuesView,
        m: Memory,
        c: Result<Option<(u16, Seq<Descriptor>)>, DeviceError>,
    |
        #[trigger] pop_rel(q0, 0, m0, q, m, c) && match c {
            Err(e) => b1 == b0 && q1 == q && m1 == m && r == Err::<(), DeviceError>(e),
            Ok(None) => b1 == b0 && q1 == q && m1 == m && r == Err::<(), DeviceError>(
                DeviceError::MissingBlockChain,
            ),
            Ok(Some(chain)) => exists|n: Memory, used: Result<u32, DeviceError>|
                #[trigger] request_rel(b0, m, chain.1, q.negotiated, b1, n, used) && match used {
                    Err(e) => q1 == q && m1 == n && r == Err::<(), DeviceError>(e),
                    Ok(used) => complete_rel(q, 0, n, chain.0, used, q1, m1, r),
                },
        };
    let chain = c->Ok_0->0;
    let (n, used) = choose|n: Memory, used: Result<u32, DeviceError>|
        #[trigger] request_rel(b0, m, chain.1, q.negotiated, b1, n, used) && match used {
            Err(e) => q1 == q && m1 == n && r == Err::<(), DeviceError>(e),
            Ok(used) => complete_rel(q, 0, n, chain.0, used, q1, m1, r),
        };
    let count = used->Ok_0;
    lemma_pop(q0, 0, m0, q, m, c);
    crate::devices::queues::pop_gives_sound_chain(q0, 0, m0, q, m, c);
    lemma_taken_ring(q0, m0, q, m, c);
    lemma_complete(q, 0, n, chain.0, count, q1, m1, r);
    assert(through((q, m, chain, n, count)));
}

/// Taking a chain moves the queue on and changes nothing else of it.
proof fn lemma_taken_ring(
    q0: QueuesView,
    m0: Memory,
    q1: QueuesView,
    m1: Memory,
    c: Result<Option<(u16, Seq<Descriptor>)>, DeviceError>,
)
    requires
        q0.rings.len() > 0,
        pop_rel(q0, 0, m0, q1, m1, c),
    ensures
        q1.rings[0].used_ring == q0.rings[0].used_ring,
{
    let r = c;
    let (m, n) = choose|m: Memory, n: Result<u16, DeviceError>|
        #[trigger] available_rel(q0.rings[0], m0, m, n) && match n {
            Err(e) => q1 == q0 && m1 == m && r == Err::<
                Option<(u16, Seq<Descriptor>)>,
                DeviceError,
            >(e),
            Ok(count) => if count == 0 {
                q1 == q0 && m1 == m && r == Ok::<Option<(u16, Seq<Descriptor>)>, DeviceError>(None)
            } else {
                exists|head: Option<Option<u16>>|
                    #[trigger] crate::devices::queues::take_rel(q0, 0, m, q1, m1, r, head)
            },
        };
    if n is Ok && n->Ok_0 != 0 {
        let head = choose|head: Option<Option<u16>>|
            #[trigger] crate::devices::queues::take_rel(q0, 0, m, q1, m1, r, head);
        assert(q1.rings[0].used_ring == q0.rings[0].used_ring);
    }
}

/// A notification that ends well serves the chains one after another, each on what
/// the one before left.
pub proof fn chains_are_served_one_after_another<BS: BlockStorage>(
    n: nat,
    b0: Block<BS>,
    q0: QueuesView,
    m0: Memory,
    b1: Block<BS>,
    q1: QueuesView,
    m1: Memory,
) -> (states: Seq<(Block<BS>, QueuesView, Memory)>)
    requires
        serve_rel(n, b0, q0, m0, b1, q1, m1, Ok(())),
    ensures
        states.len() == n + 1,
        states[0] == (b0, q0, m0),
        states[n as int] == (b1, q1, m1),
        forall|i: int|
            0 <= i < n ==> serve_one(
                (#[trigger] states[i]).0,
                states[i].1,
                states[i].2,
                states[i + 1].0,
                states[i + 1].1,
                states[i + 1].2,
                Ok(()),
            ),
    decreases n,
{
    if n == 0 {
        seq![(b0, q0, m0)]
    } else {
        let r = Ok::<(), DeviceError>(());
        let (b, q, m, e) = choose|
            b: Block<BS>,
            q: QueuesView,
            m: Memory,
            e: Result<(), DeviceError>,
        |
            {
                &&& #[trigger] through((b, q, m, e))
                &&& serve_rel((n - 1) as nat, b0, q0, m0, b, q, m, e)
                &&& if e is Err {
                    b1 == b && q1 == q && m1 == m && r == e
                } else {
                    serve_one(b, q, m, b1, q1, m1, r)
                }
            };
        let before = chains_are_served_one_after_another((n - 1) as nat, b0, q0, m0, b, q, m);
        let states = before.push((b1, q1, m1));
        assert forall|i: int| 0 <= i < n implies serve_one(
            (#[trigger] states[i]).0,
            states[i].1,
            states[i].2,
            states[i + 1].0,
            states[i + 1].1,
            states[i + 1].2,
            Ok(()),
        ) by {
            assert(states[i] == before[i]);
            if i < n - 1 {
                assert(states[i + 1] == before[i + 1]);
            }
        }
        states
    }
}

} // verus!

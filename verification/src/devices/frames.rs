//! What a network interface does for its driver: every frame that fits is
//! carried, whole and unchanged, and no chain is left behind while there is
//! something to do.
use crate::devices::buffers::{all_writable, length, reachable, reads, span, spread, writes};
use crate::devices::net::{
    after_completion, receive_rel, rx_chain, rx_deliver, rx_error, rx_header, rx_rel, rx_turn,
    transmit_rel, tx_chain, tx_error, tx_rel, tx_turn, Net, Turn,
};
use crate::devices::places::{
    a_span_is_a_part_of_the_bytes, chain_places, laid, places, segments_are_the_bytes_of_the_chain,
    trace, transfers_go_byte_by_byte,
};
use crate::devices::queues::{complete_rel, pop_rel, QueuesView};
use crate::devices::requests::{
    between, goes_on, handed_back, lemma_after_all, lemma_available_log, lemma_between,
    lemma_complete, lemma_log_concat, lemma_plain_log, lemma_pop, lemma_pop_log,
};
use crate::error::{DeviceError, NetError};
use crate::guest::{handled, ordered, Access, Memory, Segment};
use crate::math::through;
use crate::net::{NetCall, NetDevice};
use crate::ring::Descriptor;
use vstd::prelude::*;

verus! {

/// Every buffer of a chain is for the device to write, or none is.
pub open spec fn one_way(desc: Seq<Descriptor>, to_guest: bool) -> bool {
    forall|i: int| 0 <= i < desc.len() ==> ((#[trigger] desc[i]).flags & 2 != 0) == to_guest
}

proof fn lemma_one_way(desc: Seq<Descriptor>, to_guest: bool)
    ensures
        all_writable(desc, to_guest) <==> one_way(desc, to_guest),
{
    assert forall|i: int| 0 <= i < desc.len() implies (#[trigger] desc[i]).writable() == (
    desc[i].flags & 2 != 0) by {
        let f = desc[i].flags;
        assert((f / 2) % 2 == 1 <==> f & 2 != 0) by (bit_vector);
    }
}

/// A chain holds a frame to be sent: it is only read, and behind twelve bytes of
/// header there are at least the fourteen of an Ethernet header and at most as
/// many as the backend takes.
pub open spec fn holds_a_frame(
    desc: Seq<Descriptor>,
    regions: Seq<(u64, u64)>,
    limit: usize,
) -> bool {
    &&& one_way(desc, false)
    &&& reachable(regions, desc)
    &&& 12 + 14 <= chain_places(desc).len() <= 12 + limit
}

proof fn lemma_chain_length(desc: Seq<Descriptor>)
    ensures
        chain_places(desc).len() == length(desc),
    decreases desc.len(),
{
    if desc.len() > 0 {
        lemma_chain_length(desc.drop_last());
    }
}

/// Every frame that fits is offered to the backend: one of the largest size, one
/// of the smallest, and all between. It is offered whole and once, from behind
/// its header to its end, unless that header asks for what was not agreed on. A
/// chain that holds no frame is refused, and nothing is done.
pub proof fn every_frame_that_fits_is_offered<ND: NetDevice>(
    head: u16,
    desc: Seq<Descriptor>,
    n0: Net<ND>,
    q0: QueuesView,
    m0: Memory,
    n1: Net<ND>,
    q1: QueuesView,
    m1: Memory,
    t: Turn,
)
    requires
        ordered(m0.regions),
        n0.limit <= 65535 + 18,
        tx_chain(head, desc, n0, q0, m0, n1, q1, m1, t),
    ensures
        !holds_a_frame(desc, m0.regions, n0.limit) ==> t is Failed && n1 == n0 && q1 == q0 && m1
            == m0,
        holds_a_frame(desc, m0.regions, n0.limit) ==> exists|
            h: Seq<u8>,
            frame: Seq<Segment>,
            x: Result<bool, NetError>,
            header: Seq<Access>,
            m: Memory,
        |
            {
                let at = chain_places(desc);
                &&& #[trigger] through((h, frame, x, header, m))
                &&& h.len() == 12
                &&& trace(header) == laid(at.subrange(0, 12), h)
                &&& if h[0] == 0 && h[1] == 0 {
                    &&& n1.backend.calls() == n0.backend.calls().push(
                        NetCall::Send { frame, result: x },
                    )
                    &&& places(frame) == at.subrange(12, at.len() as int)
                    &&& handled(m0.after_all(header), m, frame, false)
                    &&& match x {
                        Ok(true) => n1.pending_tx == n0.pending_tx && exists|
                            r: Result<(), DeviceError>,
                        |
                            #[trigger] complete_rel(q0, 1, m, head, 0, q1, m1, r) && t
                                == after_completion(r),
                        Ok(false) => {
                            &&& n1.pending_tx == Some(head)
                            &&& t == Turn::Done && q1 == q0
                            &&& exists|kept: Seq<Access>| #[trigger]
                                through(kept) && m1 == m.after_all(kept) && trace(kept) == laid(
                                    at.subrange(12, at.len() as int),
                                    n1.tx@,
                                ) && n1.tx@.len() == at.len() - 12
                        },
                        Err(e) => t == Turn::Failed(DeviceError::Net(e)) && q1 == q0,
                    }
                } else {
                    &&& n1 == n0 && q1 == q0 && m1 == m0.after_all(header)
                    &&& t == Turn::Failed(DeviceError::UnnegotiatedTxChecksumGsoOffload)
                }
            },
{
    lemma_one_way(desc, false);
    lemma_chain_length(desc);
    assert(tx_error(desc, m0.regions, n0.limit) is None <==> holds_a_frame(
        desc,
        m0.regions,
        n0.limit,
    ));
    if holds_a_frame(desc, m0.regions, n0.limit) {
        let all = spread(m0.regions, desc);
        let size = length(desc) - 12;
        let frame = span(all, 12, size);
        let at = chain_places(desc);
        segments_are_the_bytes_of_the_chain(m0.regions, desc);
        crate::devices::buffers::spread_is_complete(m0.regions, desc);
        crate::devices::buffers::lemma_span(m0.regions, all, 0, 12);
        crate::devices::buffers::lemma_span(m0.regions, all, 12, size);
        a_span_is_a_part_of_the_bytes(all, 0, 12);
        a_span_is_a_part_of_the_bytes(all, 12, size);
        let (h, x, m) = choose|h: Seq<u8>, x: Result<bool, NetError>, m: Memory|
            {
                let read = m0.after_all(reads(span(all, 0, 12), h));
                &&& #[trigger] through((h, x, m))
                &&& h.len() == 12
                &&& if h[0] != 0 || h[1] != 0 {
                    n1 == n0 && q1 == q0 && m1 == read && t == Turn::Failed(
                        DeviceError::UnnegotiatedTxChecksumGsoOffload,
                    )
                } else {
                    &&& n1.backend.calls() == n0.backend.calls().push(
                        NetCall::Send { frame, result: x },
                    )
                    &&& handled(read, m, frame, false)
                    &&& match x {
                        Err(e) => {
                            &&& n1.pending_tx == n0.pending_tx && n1.tx == n0.tx
                            &&& q1 == q0 && m1 == m
                            &&& t == Turn::Failed(DeviceError::Net(e))
                        },
                        Ok(false) => {
                            &&& n1.pending_tx == Some(head)
                            &&& n1.tx@.len() == size
                            &&& m1 == m.after_all(reads(span(frame, 0, size), n1.tx@))
                            &&& q1 == q0 && t == Turn::Done
                        },
                        Ok(true) => {
                            &&& n1.pending_tx == n0.pending_tx && n1.tx == n0.tx
                            &&& exists|r: Result<(), DeviceError>|
                                #[trigger] complete_rel(q0, 1, m, head, 0, q1, m1, r) && t
                                    == after_completion(r)
                        },
                    }
                }
            };
        let header = reads(span(all, 0, 12), h);
        transfers_go_byte_by_byte(span(all, 0, 12), h);
        if x == Ok::<bool, NetError>(false) && h[0] == 0 && h[1] == 0 {
            crate::devices::buffers::lemma_span(m0.regions, frame, 0, size);
            a_span_is_a_part_of_the_bytes(frame, 0, size);
            let kept = reads(span(frame, 0, size), n1.tx@);
            transfers_go_byte_by_byte(span(frame, 0, size), n1.tx@);
            let part = at.subrange(12, at.len() as int);
            assert(part.subrange(0, size) =~= part);
            assert(through(kept));
        }
        assert(through((h, frame, x, header, m)));
    }
}

/// The header of a received frame: nothing is left for the guest to finish, and
/// the frame is in one buffer.
pub open spec fn plain_header(h: Seq<u8>) -> bool {
    &&& h.len() == 12
    &&& forall|i: int| 0 <= i < 10 ==> #[trigger] h[i] == 0
    &&& h[10] == 1 && h[11] == 0
}

/// A chain can take a frame: all of it is for the device to write.
pub open spec fn takes_a_frame(desc: Seq<Descriptor>, regions: Seq<(u64, u64)>) -> bool {
    one_way(desc, true) && reachable(regions, desc) && chain_places(desc).len() <= usize::MAX
}

/// What becomes of a frame of `len` bytes: one that the chain has room for is
/// handed to the guest with its header and told in full length, one that it has
/// not is dropped, and the chain comes back empty; one that is no frame ends the
/// device.
pub open spec fn delivered(
    head: u16,
    desc: Seq<Descriptor>,
    limit: usize,
    len: int,
    data: Seq<u8>,
    q0: QueuesView,
    m0: Memory,
    q1: QueuesView,
    m1: Memory,
    t: Turn,
    log: Seq<Access>,
) -> bool {
    let at = chain_places(desc);
    if len < 14 || len > limit {
        q1 == q0 && m1 == m0 && t is Failed
    } else if at.len() < 12 + len {
        exists|r: Result<(), DeviceError>|
            #[trigger] complete_rel(q0, 0, m0, head, 0, q1, m1, r) && t == after_completion(r)
    } else {
        &&& trace(log) == laid(at.subrange(0, data.len() as int), data)
        &&& forall|i: int| 0 <= i < log.len() ==> (#[trigger] log[i]) is Write
        &&& exists|r: Result<(), DeviceError>|
            #[trigger] complete_rel(
                q0,
                0,
                m0.after_all(log),
                head,
                (12 + len) as u32,
                q1,
                m1,
                r,
            ) && t == after_completion(r)
    }
}

/// A frame is received into the bytes behind the header, by the backend itself or
/// by a copy that leaves nothing out, and the guest is told how long it is. The
/// backend is asked once, for as much as it may give. Where it has nothing the
/// chain goes back as it came.
pub proof fn received_frames_arrive_whole<ND: NetDevice>(
    head: u16,
    desc: Seq<Descriptor>,
    n0: Net<ND>,
    q0: QueuesView,
    m0: Memory,
    n1: Net<ND>,
    q1: QueuesView,
    m1: Memory,
    t: Turn,
)
    requires
        ordered(m0.regions),
        n0.limit <= 65535 + 18,
        q0.rings.len() == 2,
        rx_chain(head, desc, n0, q0, m0, n1, q1, m1, t),
    ensures
        !takes_a_frame(desc, m0.regions) ==> t is Failed && n1 == n0 && q1 == q0 && m1 == m0,
        takes_a_frame(desc, m0.regions) ==> exists|
            buffer: Seq<Segment>,
            x: Result<Option<usize>, NetError>,
            y: Result<Option<Vec<u8>>, NetError>,
            h: Seq<u8>,
            m: Memory,
            log: Seq<Access>,
        |
            {
                let at = chain_places(desc);
                let given = q1 == (QueuesView {
                    rings: q0.rings.update(0, q1.rings[0]),
                    ..q0
                }) && q1.rings[0].next_avail == (q0.rings[0].next_avail - 1) % 0x1_0000;
                &&& #[trigger] through((buffer, x, y, h, m, log))
                &&& plain_header(h)
                &&& n1.pending_tx == n0.pending_tx && n1.tx == n0.tx
                &&& {
                    ||| {
                        &&& at.len() >= 12 + n0.limit
                        &&& n1.backend.calls() == n0.backend.calls().push(
                            NetCall::Recv { buffer, result: x },
                        )
                        &&& places(buffer) == at.subrange(12, 12 + n0.limit)
                        &&& handled(m0, m, buffer, true)
                        &&& match x {
                            Err(e) => t == Turn::Failed(DeviceError::Net(e)) && q1 == q0,
                            Ok(None) => t == Turn::Done && given && m1 == m0,
                            Ok(Some(len)) => delivered(
                                head,
                                desc,
                                n0.limit,
                                len as int,
                                h,
                                q0,
                                m,
                                q1,
                                m1,
                                t,
                                log,
                            ),
                        }
                    }
                    ||| {
                        &&& n1.backend.calls() == n0.backend.calls().push(
                            NetCall::Fetch { capacity: n0.limit, result: y },
                        )
                        &&& match y {
                            Err(e) => t == Turn::Failed(DeviceError::Net(e)) && q1 == q0 && m1
                                == m0,
                            Ok(None) => t == Turn::Done && given && m1 == m0,
                            Ok(Some(frame)) => delivered(
                                head,
                                desc,
                                n0.limit,
                                frame@.len() as int,
                                h + frame@,
                                q0,
                                m0,
                                q1,
                                m1,
                                t,
                                log,
                            ),
                        }
                    }
                }
            },
{
    lemma_one_way(desc, true);
    lemma_chain_length(desc);
    if takes_a_frame(desc, m0.regions) {
        let all = spread(m0.regions, desc);
        let at = chain_places(desc);
        segments_are_the_bytes_of_the_chain(m0.regions, desc);
        crate::devices::buffers::spread_is_complete(m0.regions, desc);
        let h = rx_header();
        assert(plain_header(h));
        let returned = crate::devices::net::returned(q0);
        assert(returned.rings =~= q0.rings.update(0, returned.rings[0]));
        if crate::devices::net::direct(desc, m0.regions, n0.limit) {
            let buffer = span(all, 12, n0.limit as int);
            crate::devices::buffers::lemma_span(m0.regions, all, 12, n0.limit as int);
            a_span_is_a_part_of_the_bytes(all, 12, n0.limit as int);
            let (x, m) = choose|x: Result<Option<usize>, NetError>, m: Memory|
                {
                    &&& #[trigger] through((x, m))
                    &&& n1.backend.calls() == n0.backend.calls().push(
                        NetCall::Recv { buffer, result: x },
                    )
                    &&& handled(m0, m, buffer, true)
                    &&& match x {
                        Err(e) => q1 == q0 && m1 == m && t == Turn::Failed(DeviceError::Net(e)),
                        Ok(None) => q1 == returned && m1 == m0 && t == Turn::Done,
                        Ok(Some(len)) => rx_deliver(
                            head,
                            desc,
                            n0.limit,
                            len,
                            rx_header(),
                            q0,
                            m,
                            q1,
                            m1,
                            t,
                        ),
                    }
                };
            let log = if let Ok(Some(len)) = x {
                lemma_delivered(head, desc, n0.limit, len, h, q0, m, q1, m1, t)
            } else {
                Seq::empty()
            };
            assert(through((buffer, x, Ok::<Option<Vec<u8>>, NetError>(None), h, m, log)));
        } else {
            let y = choose|y: Result<Option<Vec<u8>>, NetError>|
                {
                    &&& #[trigger] through(y)
                    &&& n1.backend.calls() == n0.backend.calls().push(
                        NetCall::Fetch { capacity: n0.limit, result: y },
                    )
                    &&& match y {
                        Err(e) => q1 == q0 && m1 == m0 && t == Turn::Failed(DeviceError::Net(e)),
                        Ok(None) => q1 == returned && m1 == m0 && t == Turn::Done,
                        Ok(Some(frame)) => rx_deliver(
                            head,
                            desc,
                            n0.limit,
                            frame@.len() as usize,
                            rx_header() + frame@,
                            q0,
                            m0,
                            q1,
                            m1,
                            t,
                        ),
                    }
                };
            let log = if let Ok(Some(frame)) = y {
                assert(frame.len() == frame@.len());
                lemma_delivered(
                    head,
                    desc,
                    n0.limit,
                    frame@.len() as usize,
                    h + frame@,
                    q0,
                    m0,
                    q1,
                    m1,
                    t,
                )
            } else {
                Seq::empty()
            };
            let buffer = Seq::<Segment>::empty();
            assert(through((buffer, Ok::<Option<usize>, NetError>(None), y, h, m0, log)));
        }
    }
}

proof fn lemma_delivered(
    head: u16,
    desc: Seq<Descriptor>,
    limit: usize,
    len: usize,
    data: Seq<u8>,
    q0: QueuesView,
    m0: Memory,
    q1: QueuesView,
    m1: Memory,
    t: Turn,
) -> (log: Seq<Access>)
    requires
        ordered(m0.regions),
        reachable(m0.regions, desc),
        limit <= 65535 + 18,
        data.len() <= 12 + len,
        rx_deliver(head, desc, limit, len, data, q0, m0, q1, m1, t),
    ensures
        delivered(head, desc, limit, len as int, data, q0, m0, q1, m1, t, log),
{
    let all = spread(m0.regions, desc);
    let n = data.len() as int;
    lemma_chain_length(desc);
    segments_are_the_bytes_of_the_chain(m0.regions, desc);
    crate::devices::buffers::spread_is_complete(m0.regions, desc);
    let log = writes(span(all, 0, n), data);
    if 14 <= len <= limit && length(desc) >= 12 + len {
        crate::devices::buffers::lemma_span(m0.regions, all, 0, n);
        a_span_is_a_part_of_the_bytes(all, 0, n);
        transfers_go_byte_by_byte(span(all, 0, n), data);
    }
    log
}

/// Nothing is left on a queue: the driver's index, read last, is where the queue
/// stands.
pub open spec fn drained(q: QueuesView, index: int, m: Memory) -> bool {
    exists|idx: u16|
        #[trigger] through(idx) && m.accesses.len() > 0 && m.accesses.last() == (Access::AvailIdx {
            addr: q.rings[index].avail_ring,
            value: Some(idx),
        }) && q.rings[index].next_avail == idx
}

proof fn lemma_pop_none(
    q0: QueuesView,
    index: int,
    m0: Memory,
    q1: QueuesView,
    m1: Memory,
)
    requires
        0 <= index < q0.rings.len(),
        pop_rel(q0, index, m0, q1, m1, Ok(None)),
    ensures
        drained(q1, index, m1),
{
    let r = Ok::<Option<(u16, Seq<Descriptor>)>, DeviceError>(None);
    let (m, n) = choose|m: Memory, n: Result<u16, DeviceError>|
        #[trigger] crate::devices::queues::available_rel(q0.rings[index], m0, m, n) && match n {
            Err(e) => false,
            Ok(count) => if count == 0 {
                q1 == q0 && m1 == m
            } else {
                exists|head: Option<Option<u16>>|
                    #[trigger] crate::devices::queues::take_rel(q0, index, m, q1, m1, r, head)
            },
        };
    lemma_available_log(q0, index, m0, m, n);
    let count = n->Ok_0;
    if count == 0 {
        let idx = choose|idx: u16|
            #[trigger] through(idx) && between(m0, m) == seq![
                Access::AvailIdx { addr: q0.rings[index].avail_ring, value: Some(idx) },
            ] && (q0.rings[index].next_avail + count) % 0x1_0000 == idx && count
                <= q0.rings[index].size;
        assert(between(m0, m).last() == m1.accesses.last());
        assert(through(idx));
    } else {
        let head = choose|head: Option<Option<u16>>|
            #[trigger] crate::devices::queues::take_rel(q0, index, m, q1, m1, r, head);
        if let Some(Some(h)) = head {
            let ring = q0.rings[index];
            let next = m.after(crate::ring::head_access(ring, head));
            let log = choose|log: Seq<Access>|
                m1 == #[trigger] next.after_all(log) && match crate::devices::queues::walk(
                    ring,
                    next.regions,
                    h,
                    ring.size as nat,
                    Seq::empty(),
                    log,
                ) {
                    None => false,
                    Some(Ok(d)) => r == Ok::<Option<(u16, Seq<Descriptor>)>, DeviceError>(
                        Some((h, d)),
                    ),
                    Some(Err(e)) => r == Err::<Option<(u16, Seq<Descriptor>)>, DeviceError>(e),
                };
            assert(false);
        }
    }
}

/// Whoever was handed segments has neither taken nor handed back a chain.
proof fn lemma_handled_log(m0: Memory, m1: Memory, segments: Seq<Segment>, may_write: bool)
    requires
        handled(m0, m1, segments, may_write),
    ensures
        goes_on(m0, m1),
        handed_back(between(m0, m1)) == Seq::<(u16, u32)>::empty(),
{
    let log = choose|log: Seq<Access>|
        m1 == #[trigger] m0.after_all(log) && forall|i: int|
            0 <= i < log.len() ==> crate::guest::touches(#[trigger] log[i], segments, may_write);
    assert forall|i: int| 0 <= i < log.len() implies (#[trigger] log[i]) is Read
        || log[i] is Write by {
        assert(crate::guest::touches(log[i], segments, may_write));
    }
    lemma_plain_log(log);
    lemma_after_all(m0, log);
}

proof fn lemma_transfer_log(m0: Memory, segments: Seq<Segment>, data: Seq<u8>)
    requires
        data.len() == crate::guest::total(segments),
    ensures
        goes_on(m0, m0.after_all(reads(segments, data))),
        goes_on(m0, m0.after_all(writes(segments, data))),
        handed_back(between(m0, m0.after_all(reads(segments, data)))) == Seq::<(u16, u32)>::empty(),
        handed_back(between(m0, m0.after_all(writes(segments, data))))
            == Seq::<(u16, u32)>::empty(),
{
    transfers_go_byte_by_byte(segments, data);
    lemma_plain_log(reads(segments, data));
    lemma_plain_log(writes(segments, data));
    lemma_after_all(m0, reads(segments, data));
    lemma_after_all(m0, writes(segments, data));
}

/// Two stretches of accesses, of which the first hands nothing back.
proof fn lemma_then(m0: Memory, m1: Memory, m2: Memory)
    requires
        goes_on(m0, m1),
        goes_on(m1, m2),
        handed_back(between(m0, m1)) == Seq::<(u16, u32)>::empty(),
    ensures
        goes_on(m0, m2),
        handed_back(between(m0, m2)) == handed_back(between(m1, m2)),
{
    lemma_between(m0, m1, m2);
    lemma_log_concat(between(m0, m1), between(m1, m2));
    assert(handed_back(between(m0, m2)) =~= handed_back(between(m1, m2)));
}

proof fn lemma_completed(
    q0: QueuesView,
    index: int,
    m0: Memory,
    head: u16,
    len: u32,
    q1: QueuesView,
    m1: Memory,
    r: Result<(), DeviceError>,
)
    requires
        0 <= index < q0.rings.len(),
        complete_rel(q0, index, m0, head, len, q1, m1, r),
    ensures
        goes_on(m0, m1),
        q1.rings.len() == q0.rings.len(),
        r is Ok ==> handed_back(between(m0, m1)) == seq![(head, len)],
{
    lemma_complete(q0, index, m0, head, len, q1, m1, r);
    if r is Ok {
        let last = Access::Used {
            addr: q0.rings[index].used_ring,
            index: q0.rings[index].next_used,
            head,
            len,
            ok: true,
        };
        assert(between(m0, m1) =~= seq![last]);
        assert(seq![last].drop_last() =~= Seq::empty());
        reveal_with_fuel(handed_back, 2);
        assert(handed_back(between(m0, m1)) =~= seq![(head, len)]);
    }
}

proof fn lemma_tx_chain_log<ND: NetDevice>(
    head: u16,
    desc: Seq<Descriptor>,
    n0: Net<ND>,
    q0: QueuesView,
    m0: Memory,
    n1: Net<ND>,
    q1: QueuesView,
    m1: Memory,
    t: Turn,
)
    requires
        ordered(m0.regions),
        q0.rings.len() == 2,
        n0.limit <= 65535 + 18,
        tx_chain(head, desc, n0, q0, m0, n1, q1, m1, t),
    ensures
        goes_on(m0, m1),
        q1.rings.len() == 2,
        n1.limit == n0.limit,
        t is More ==> handed_back(between(m0, m1)) == seq![(head, 0u32)],
        t is Done ==> n1.pending_tx is Some && handed_back(between(m0, m1))
            == Seq::<(u16, u32)>::empty(),
{
    let all = spread(m0.regions, desc);
    let size = length(desc) - 12;
    let frame = span(all, 12, size);
    if tx_error(desc, m0.regions, n0.limit) is None {
        lemma_chain_length(desc);
        crate::devices::buffers::spread_is_complete(m0.regions, desc);
        crate::devices::buffers::lemma_span(m0.regions, all, 0, 12);
        crate::devices::buffers::lemma_span(m0.regions, all, 12, size);
        let (h, x, m) = choose|h: Seq<u8>, x: Result<bool, NetError>, m: Memory|
            {
                let read = m0.after_all(reads(span(all, 0, 12), h));
                &&& #[trigger] through((h, x, m))
                &&& h.len() == 12
                &&& if h[0] != 0 || h[1] != 0 {
                    n1 == n0 && q1 == q0 && m1 == read && t == Turn::Failed(
                        DeviceError::UnnegotiatedTxChecksumGsoOffload,
                    )
                } else {
                    &&& handled(read, m, frame, false)
                    &&& n1.limit == n0.limit
                    &&& match x {
                        Err(e) => q1 == q0 && m1 == m && t == Turn::Failed(DeviceError::Net(e)),
                        Ok(false) => {
                            &&& n1.pending_tx == Some(head)
                            &&& n1.tx@.len() == size
                            &&& m1 == m.after_all(reads(span(frame, 0, size), n1.tx@))
                            &&& q1 == q0 && t == Turn::Done
                        },
                        Ok(true) => exists|r: Result<(), DeviceError>|
                            #[trigger] complete_rel(q0, 1, m, head, 0, q1, m1, r) && t
                                == after_completion(r),
                    }
                }
            };
        let read = m0.after_all(reads(span(all, 0, 12), h));
        lemma_transfer_log(m0, span(all, 0, 12), h);
        if h[0] == 0 && h[1] == 0 {
            lemma_handled_log(read, m, frame, false);
            lemma_then(m0, read, m);
            if x == Ok::<bool, NetError>(false) {
                crate::devices::buffers::lemma_span(m0.regions, frame, 0, size);
                lemma_transfer_log(m, span(frame, 0, size), n1.tx@);
                lemma_then(m0, m, m1);
            }
            if x == Ok::<bool, NetError>(true) {
                let r = choose|r: Result<(), DeviceError>|
                    #[trigger] complete_rel(q0, 1, m, head, 0, q1, m1, r) && t
                        == after_completion(r);
                lemma_completed(q0, 1, m, head, 0, q1, m1, r);
                lemma_then(m0, m, m1);
            }
        }
    } else {
        assert(m0.accesses.take(m0.accesses.len() as int) =~= m0.accesses);
        assert(between(m0, m1) =~= Seq::empty());
    }
}

proof fn lemma_tx_turn_log<ND: NetDevice>(
    n0: Net<ND>,
    q0: QueuesView,
    m0: Memory,
    n1: Net<ND>,
    q1: QueuesView,
    m1: Memory,
    t: Turn,
)
    requires
        ordered(m0.regions),
        q0.rings.len() == 2,
        n0.limit <= 65535 + 18,
        tx_turn(n0, q0, m0, n1, q1, m1, t),
    ensures
        goes_on(m0, m1),
        q1.rings.len() == 2,
        n1.limit == n0.limit,
        t is More ==> handed_back(between(m0, m1)).len() == 1,
        t is Done ==> n1.pending_tx is Some || drained(q1, 1, m1),
        t is Done ==> handed_back(between(m0, m1)).len() == 0,
{
    match n0.pending_tx {
        Some(head) => {
            let x = choose|x: Result<bool, NetError>|
                {
                    &&& #[trigger] through(x)
                    &&& n1.limit == n0.limit
                    &&& match x {
                        Err(e) => q1 == q0 && m1 == m0 && t is Failed,
                        Ok(false) => n1.pending_tx == n0.pending_tx && q1 == q0 && m1 == m0 && t
                            == Turn::Done,
                        Ok(true) => exists|r: Result<(), DeviceError>|
                            #[trigger] complete_rel(q0, 1, m0, head, 0, q1, m1, r) && t
                                == after_completion(r),
                    }
                };
            if x == Ok::<bool, NetError>(true) {
                let r = choose|r: Result<(), DeviceError>|
                    #[trigger] complete_rel(q0, 1, m0, head, 0, q1, m1, r) && t
                        == after_completion(r);
                lemma_completed(q0, 1, m0, head, 0, q1, m1, r);
            } else {
                assert(m0.accesses.take(m0.accesses.len() as int) =~= m0.accesses);
                assert(between(m0, m1) =~= Seq::empty());
            }
        },
        None => {
            let (q, m, c) = choose|
                q: QueuesView,
                m: Memory,
                c: Result<Option<(u16, Seq<Descriptor>)>, DeviceError>,
            |
                #[trigger] pop_rel(q0, 1, m0, q, m, c) && match c {
                    Err(e) => n1 == n0 && q1 == q && m1 == m && t == Turn::Failed(e),
                    Ok(None) => n1 == n0 && q1 == q && m1 == m && t == Turn::Done,
                    Ok(Some(chain)) => tx_chain(chain.0, chain.1, n0, q, m, n1, q1, m1, t),
                };
            lemma_pop(q0, 1, m0, q, m, c);
            lemma_pop_log(q0, 1, m0, q, m, c);
            match c {
                Ok(Some(chain)) => {
                    lemma_tx_chain_log(chain.0, chain.1, n0, q, m, n1, q1, m1, t);
                    lemma_then(m0, m, m1);
                },
                Ok(None) => {
                    lemma_pop_none(q0, 1, m0, q, m);
                },
                Err(_) => {},
            }
        },
    }
}

proof fn lemma_tx_log<ND: NetDevice>(
    k: nat,
    n0: Net<ND>,
    q0: QueuesView,
    m0: Memory,
    n1: Net<ND>,
    q1: QueuesView,
    m1: Memory,
    t: Turn,
)
    requires
        ordered(m0.regions),
        q0.rings.len() == 2,
        n0.limit <= 65535 + 18,
        tx_rel(k, n0, q0, m0, n1, q1, m1, t),
    ensures
        goes_on(m0, m1),
        q1.rings.len() == 2,
        n1.limit == n0.limit,
        t is More ==> handed_back(between(m0, m1)).len() == k,
        t is Done ==> n1.pending_tx is Some || drained(q1, 1, m1),
    decreases k,
{
    if k == 0 {
        assert(m0.accesses.take(m0.accesses.len() as int) =~= m0.accesses);
        assert(between(m0, m1) =~= Seq::empty());
    } else {
        let (n, q, m, s) = choose|n: Net<ND>, q: QueuesView, m: Memory, s: Turn|
            {
                &&& #[trigger] through((n, q, m, s))
                &&& tx_rel((k - 1) as nat, n0, q0, m0, n, q, m, s)
                &&& if s is More {
                    tx_turn(n, q, m, n1, q1, m1, t)
                } else {
                    n1 == n && q1 == q && m1 == m && t == s
                }
            };
        lemma_tx_log((k - 1) as nat, n0, q0, m0, n, q, m, s);
        if s is More {
            lemma_tx_turn_log(n, q, m, n1, q1, m1, t);
            lemma_between(m0, m, m1);
            lemma_log_concat(between(m0, m), between(m, m1));
        }
    }
}

/// A call of the transmit loop that ends well leaves nothing to do: it has sent
/// all that the driver had made available, or the backend takes no more for now,
/// or it has handed sixty-four chains back and goes on at the next call.
pub proof fn transmitting_leaves_nothing_to_do<ND: NetDevice>(
    n0: Net<ND>,
    q0: QueuesView,
    m0: Memory,
    n1: Net<ND>,
    q1: QueuesView,
    m1: Memory,
)
    requires
        ordered(m0.regions),
        q0.rings.len() == 2,
        n0.limit <= 65535 + 18,
        transmit_rel(n0, q0, m0, n1, q1, m1, Ok(())),
    ensures
        drained(q1, 1, m1) || n1.pending_tx is Some || handed_back(between(m0, m1)).len() == 64,
        goes_on(m0, m1),
        q1.rings.len() == 2,
        n1.limit == n0.limit,
{
    let r = Ok::<(), DeviceError>(());
    let t = choose|t: Turn|
        #[trigger] tx_rel(
            crate::devices::net::BUDGET as nat,
            n0,
            q0,
            m0,
            n1,
            q1,
            m1,
            t,
        ) && r == crate::devices::net::outcome(t);
    lemma_tx_log(crate::devices::net::BUDGET as nat, n0, q0, m0, n1, q1, m1, t);
}

proof fn lemma_rx_deliver_log(
    head: u16,
    desc: Seq<Descriptor>,
    limit: usize,
    len: usize,
    data: Seq<u8>,
    q0: QueuesView,
    m0: Memory,
    q1: QueuesView,
    m1: Memory,
    t: Turn,
)
    requires
        ordered(m0.regions),
        reachable(m0.regions, desc),
        q0.rings.len() == 2,
        data.len() <= 12 + len,
        rx_deliver(head, desc, limit, len, data, q0, m0, q1, m1, t),
    ensures
        goes_on(m0, m1),
        q1.rings.len() == 2,
        t is More ==> handed_back(between(m0, m1)).len() == 1,
        !(t is Done),
{
    let all = spread(m0.regions, desc);
    if len < 14 || limit < len {
        assert(m0.accesses.take(m0.accesses.len() as int) =~= m0.accesses);
        assert(between(m0, m1) =~= Seq::empty());
    } else if length(desc) < 12 + len {
        let r = choose|r: Result<(), DeviceError>|
            #[trigger] complete_rel(q0, 0, m0, head, 0, q1, m1, r) && t == after_completion(r);
        lemma_completed(q0, 0, m0, head, 0, q1, m1, r);
    } else {
        let n = data.len() as int;
        let m = m0.after_all(writes(span(all, 0, n), data));
        crate::devices::buffers::spread_is_complete(m0.regions, desc);
        crate::devices::buffers::lemma_span(m0.regions, all, 0, n);
        lemma_transfer_log(m0, span(all, 0, n), data);
        let r = choose|r: Result<(), DeviceError>|
            #[trigger] complete_rel(q0, 0, m, head, (12 + len) as u32, q1, m1, r) && t
                == after_completion(r);
        lemma_completed(q0, 0, m, head, (12 + len) as u32, q1, m1, r);
        lemma_then(m0, m, m1);
    }
}

/// The backend was asked last, and had no frame.
pub open spec fn nothing_came<ND: NetDevice>(n: Net<ND>) -> bool {
    n.backend.calls().len() > 0 && match n.backend.calls().last() {
        NetCall::Recv { result, .. } => result == Ok::<Option<usize>, NetError>(None),
        NetCall::Fetch { result, .. } => result == Ok::<Option<Vec<u8>>, NetError>(None),
        _ => false,
    }
}

proof fn lemma_rx_turn_log<ND: NetDevice>(
    n0: Net<ND>,
    q0: QueuesView,
    m0: Memory,
    n1: Net<ND>,
    q1: QueuesView,
    m1: Memory,
    t: Turn,
)
    requires
        ordered(m0.regions),
        q0.rings.len() == 2,
        rx_turn(n0, q0, m0, n1, q1, m1, t),
    ensures
        goes_on(m0, m1),
        q1.rings.len() == 2,
        t is More ==> handed_back(between(m0, m1)).len() == 1,
        t is Done ==> nothing_came(n1) || drained(q1, 0, m1),
{
    let (q, m, c) = choose|
        q: QueuesView,
        m: Memory,
        c: Result<Option<(u16, Seq<Descriptor>)>, DeviceError>,
    |
        #[trigger] pop_rel(q0, 0, m0, q, m, c) && match c {
            Err(e) => n1 == n0 && q1 == q && m1 == m && t == Turn::Failed(e),
            Ok(None) => n1 == n0 && q1 == q && m1 == m && t == Turn::Done,
            Ok(Some(chain)) => rx_chain(chain.0, chain.1, n0, q, m, n1, q1, m1, t),
        };
    lemma_pop(q0, 0, m0, q, m, c);
    lemma_pop_log(q0, 0, m0, q, m, c);
    match c {
        Err(_) => {},
        Ok(None) => {
            lemma_pop_none(q0, 0, m0, q, m);
        },
        Ok(Some(chain)) => {
            lemma_rx_chain_log(chain.0, chain.1, n0, q, m, n1, q1, m1, t);
            lemma_then(m0, m, m1);
        },
    }
}

proof fn lemma_rx_chain_log<ND: NetDevice>(
    head: u16,
    desc: Seq<Descriptor>,
    n0: Net<ND>,
    q0: QueuesView,
    m0: Memory,
    n1: Net<ND>,
    q1: QueuesView,
    m1: Memory,
    t: Turn,
)
    requires
        ordered(m0.regions),
        q0.rings.len() == 2,
        rx_chain(head, desc, n0, q0, m0, n1, q1, m1, t),
    ensures
        goes_on(m0, m1),
        q1.rings.len() == 2,
        t is More ==> handed_back(between(m0, m1)).len() == 1,
        t is Done ==> nothing_came(n1),
{
    assert(m0.accesses.take(m0.accesses.len() as int) =~= m0.accesses);
    assert(between(m0, m0) =~= Seq::empty());
    if rx_error(desc, m0.regions) is None {
        let all = spread(m0.regions, desc);
        let returned = crate::devices::net::returned(q0);
        if crate::devices::net::direct(desc, m0.regions, n0.limit) {
            let buffer = span(all, 12, n0.limit as int);
            let (x, m) = choose|x: Result<Option<usize>, NetError>, m: Memory|
                {
                    &&& #[trigger] through((x, m))
                    &&& n1.backend.calls() == n0.backend.calls().push(
                        NetCall::Recv { buffer, result: x },
                    )
                    &&& handled(m0, m, buffer, true)
                    &&& match x {
                        Err(e) => q1 == q0 && m1 == m && t == Turn::Failed(DeviceError::Net(e)),
                        Ok(None) => q1 == returned && m1 == m0 && t == Turn::Done,
                        Ok(Some(len)) => rx_deliver(
                            head,
                            desc,
                            n0.limit,
                            len,
                            rx_header(),
                            q0,
                            m,
                            q1,
                            m1,
                            t,
                        ),
                    }
                };
            lemma_handled_log(m0, m, buffer, true);
            if let Ok(Some(len)) = x {
                lemma_rx_deliver_log(
                    head,
                    desc,
                    n0.limit,
                    len,
                    rx_header(),
                    q0,
                    m,
                    q1,
                    m1,
                    t,
                );
                lemma_then(m0, m, m1);
            }
        } else {
            let y = choose|y: Result<Option<Vec<u8>>, NetError>|
                {
                    &&& #[trigger] through(y)
                    &&& n1.backend.calls() == n0.backend.calls().push(
                        NetCall::Fetch { capacity: n0.limit, result: y },
                    )
                    &&& match y {
                        Err(e) => q1 == q0 && m1 == m0 && t == Turn::Failed(DeviceError::Net(e)),
                        Ok(None) => q1 == returned && m1 == m0 && t == Turn::Done,
                        Ok(Some(frame)) => rx_deliver(
                            head,
                            desc,
                            n0.limit,
                            frame@.len() as usize,
                            rx_header() + frame@,
                            q0,
                            m0,
                            q1,
                            m1,
                            t,
                        ),
                    }
                };
            if let Ok(Some(frame)) = y {
                assert(frame.len() == frame@.len());
                lemma_rx_deliver_log(
                    head,
                    desc,
                    n0.limit,
                    frame@.len() as usize,
                    rx_header() + frame@,
                    q0,
                    m0,
                    q1,
                    m1,
                    t,
                );
            }
        }
    }
}

proof fn lemma_rx_log<ND: NetDevice>(
    k: nat,
    n0: Net<ND>,
    q0: QueuesView,
    m0: Memory,
    n1: Net<ND>,
    q1: QueuesView,
    m1: Memory,
    t: Turn,
)
    requires
        ordered(m0.regions),
        q0.rings.len() == 2,
        rx_rel(k, n0, q0, m0, n1, q1, m1, t),
    ensures
        goes_on(m0, m1),
        q1.rings.len() == 2,
        t is More ==> handed_back(between(m0, m1)).len() == k,
        t is Done ==> nothing_came(n1) || drained(q1, 0, m1),
    decreases k,
{
    if k == 0 {
        assert(m0.accesses.take(m0.accesses.len() as int) =~= m0.accesses);
        assert(between(m0, m1) =~= Seq::empty());
    } else {
        let (n, q, m, s) = choose|n: Net<ND>, q: QueuesView, m: Memory, s: Turn|
            {
                &&& #[trigger] through((n, q, m, s))
                &&& rx_rel((k - 1) as nat, n0, q0, m0, n, q, m, s)
                &&& if s is More {
                    rx_turn(n, q, m, n1, q1, m1, t)
                } else {
                    n1 == n && q1 == q && m1 == m && t == s
                }
            };
        lemma_rx_log((k - 1) as nat, n0, q0, m0, n, q, m, s);
        if s is More {
            lemma_rx_turn_log(n, q, m, n1, q1, m1, t);
            lemma_between(m0, m, m1);
            lemma_log_concat(between(m0, m), between(m, m1));
        }
    }
}

/// A call of the receive loop that ends well leaves nothing to do: the backend has
/// no frame, or the driver has made no more room, or sixty-four chains were
/// handed back and it goes on at the next call.
pub proof fn receiving_leaves_nothing_to_do<ND: NetDevice>(
    n0: Net<ND>,
    q0: QueuesView,
    m0: Memory,
    n1: Net<ND>,
    q1: QueuesView,
    m1: Memory,
)
    requires
        ordered(m0.regions),
        q0.rings.len() == 2,
        receive_rel(n0, q0, m0, n1, q1, m1, Ok(())),
    ensures
        drained(q1, 0, m1) || nothing_came(n1) || handed_back(between(m0, m1)).len() == 64,
{
    let r = Ok::<(), DeviceError>(());
    let t = choose|t: Turn|
        #[trigger] rx_rel(
            crate::devices::net::BUDGET as nat,
            n0,
            q0,
            m0,
            n1,
            q1,
            m1,
            t,
        ) && r == crate::devices::net::outcome(t);
    lemma_rx_log(crate::devices::net::BUDGET as nat, n0, q0, m0, n1, q1, m1, t);
}

} // verus!

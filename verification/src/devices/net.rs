//! virtio-net.
use crate::bytes::{le16_bytes, put_le16};
use crate::devices::buffers::{
    all_writable, copy_from, copy_to, is_all_writable, length, overlapping, overlaps, range,
    reachable, reads, slices, span, spread, sum_lengths, writes,
};
use crate::devices::mmio::{read_config, VirtioDevice};
use crate::devices::queues::{chain_view, complete_rel, pop_rel, Chain, Queues, QueuesView};
use crate::error::{DeviceError, NetError};
use crate::guest::{handled, total, within, Guest, Memory, Segment};
use crate::math::through;
use crate::net::{NetCall, NetDevice};
use crate::ring::{Descriptor, Ring};
use vstd::prelude::*;

verus! {

/// Length of the header before each frame. It ends with the number of buffers,
/// which the current standard always has.
pub const HEADER: usize = 12;

/// Most frames that one turn moves in each direction.
pub const BUDGET: usize = 64;

/// Feature bits of a device that tells its address and its MTU.
pub const FEATURES: u64 = 0x28;

/// A network interface behind the transport.
pub struct Net<ND: NetDevice> {
    pub backend: ND,
    pub config: Vec<u8>,
    /// Longest frame of the backend.
    pub limit: usize,
    /// Head of a chain whose frame the backend has not accepted yet.
    pub pending_tx: Option<u16>,
    /// That frame.
    pub tx: Vec<u8>,
}

/// The MTU and the frame length can be offered to a driver.
pub open spec fn capacity_ok(mtu: u16, limit: usize) -> bool {
    68 <= mtu && mtu + 14 <= limit && limit <= 65535 + 18
}

/// The address is neither a group address nor zero.
pub open spec fn mac_ok(mac: Seq<u8>) -> bool {
    mac[0] % 2 == 0 && exists|i: int| 0 <= i < 6 && #[trigger] mac[i] != 0
}

/// The configuration that a driver reads.
pub open spec fn net_config(mac: Seq<u8>, mtu: u16) -> Seq<u8> {
    mac + seq![0u8, 0u8, 0u8, 0u8] + le16_bytes(mtu)
}

/// How one turn of a loop ends.
pub enum Turn {
    /// Go on.
    More,
    /// Nothing is left to do.
    Done,
    Failed(DeviceError),
}

/// A turn after which the outcome of a completion decides.
pub open spec fn after_completion(r: Result<(), DeviceError>) -> Turn {
    match r {
        Ok(()) => Turn::More,
        Err(e) => Turn::Failed(e),
    }
}

/// The outcome of a loop that ended so.
pub open spec fn outcome(t: Turn) -> Result<(), DeviceError> {
    match t {
        Turn::Failed(e) => Err(e),
        _ => Ok(()),
    }
}

/// Why a chain cannot be transmitted, before its header is read.
pub open spec fn tx_error(
    desc: Seq<Descriptor>,
    regions: Seq<(u64, u64)>,
    limit: usize,
) -> Option<DeviceError> {
    if !all_writable(desc, false) {
        Some(DeviceError::TxDescriptorMustBeReadable)
    } else if length(desc) > usize::MAX {
        Some(DeviceError::TxLengthOverflow)
    } else if length(desc) < HEADER + 14 || HEADER + limit < length(desc) {
        Some(
            DeviceError::InvalidTxPacketSize {
                length: length(desc) as usize,
                capacity: (HEADER + limit) as usize,
            },
        )
    } else if !reachable(regions, desc) {
        Some(DeviceError::GuestAccess)
    } else {
        None
    }
}

/// Transmitting a popped chain.
pub open spec fn tx_chain<ND: NetDevice>(
    head: u16,
    desc: Seq<Descriptor>,
    n0: Net<ND>,
    q0: QueuesView,
    m0: Memory,
    n1: Net<ND>,
    q1: QueuesView,
    m1: Memory,
    t: Turn,
) -> bool {
    let all = spread(m0.regions, desc);
    let size = length(desc) - HEADER;
    let frame = span(all, HEADER as int, size);
    match tx_error(desc, m0.regions, n0.limit) {
        Some(e) => n1 == n0 && q1 == q0 && m1 == m0 && t == Turn::Failed(e),
        None => exists|h: Seq<u8>, x: Result<bool, NetError>, m: Memory|
            {
                let read = m0.after_all(reads(span(all, 0, HEADER as int), h));
                &&& #[trigger] through((h, x, m))
                &&& h.len() == HEADER
                &&& if h[0] != 0 || h[1] != 0 {
                    n1 == n0 && q1 == q0 && m1 == read && t == Turn::Failed(
                        DeviceError::UnnegotiatedTxChecksumGsoOffload,
                    )
                } else {
                    &&& n1.backend.calls() == n0.backend.calls().push(
                        NetCall::Send { frame, result: x },
                    )
                    &&& handled(read, m, frame, false)
                    &&& n1.config == n0.config && n1.limit == n0.limit
                    &&& match x {
                        Err(e) => {
                            &&& n1.pending_tx == n0.pending_tx && n1.tx == n0.tx
                            &&& q1 == q0 && m1 == m
                            &&& t == Turn::Failed(DeviceError::Net(e))
                        },
                        Ok(false) => {
                            &&& n1.pending_tx == Some(head)
                            &&& n1.tx@.len() == size
                            &&& m1 == m.after_all(reads(span(frame, 0, size), n1.tx@))
                            &&& q1 == q0 && t == Turn::Done
                        },
                        Ok(true) => {
                            &&& n1.pending_tx == n0.pending_tx && n1.tx == n0.tx
                            &&& exists|r: Result<(), DeviceError>|
                                #[trigger] complete_rel(q0, 1, m, head, 0, q1, m1, r) && t
                                    == after_completion(r)
                        },
                    }
                }
            },
    }
}

/// One turn of the transmit loop: a frame that was refused is offered again,
/// otherwise the next chain is taken.
pub open spec fn tx_turn<ND: NetDevice>(
    n0: Net<ND>,
    q0: QueuesView,
    m0: Memory,
    n1: Net<ND>,
    q1: QueuesView,
    m1: Memory,
    t: Turn,
) -> bool {
    match n0.pending_tx {
        Some(head) => exists|x: Result<bool, NetError>|
            {
                &&& #[trigger] through(x)
                &&& n1.backend.calls() == n0.backend.calls().push(
                    NetCall::Resend { frame: n0.tx@, result: x },
                )
                &&& n1.config == n0.config && n1.limit == n0.limit && n1.tx == n0.tx
                &&& match x {
                    Err(e) => n1.pending_tx == n0.pending_tx && q1 == q0 && m1 == m0 && t
                        == Turn::Failed(DeviceError::Net(e)),
                    Ok(false) => n1.pending_tx == n0.pending_tx && q1 == q0 && m1 == m0 && t
                        == Turn::Done,
                    Ok(true) => n1.pending_tx is None && exists|r: Result<(), DeviceError>|
                        #[trigger] complete_rel(q0, 1, m0, head, 0, q1, m1, r) && t
                            == after_completion(r),
                }
            },
        None => exists|
            q: QueuesView,
            m: Memory,
            c: Result<Option<(u16, Seq<Descriptor>)>, DeviceError>,
        |
            #[trigger] pop_rel(q0, 1, m0, q, m, c) && match c {
                Err(e) => n1 == n0 && q1 == q && m1 == m && t == Turn::Failed(e),
                Ok(None) => n1 == n0 && q1 == q && m1 == m && t == Turn::Done,
                Ok(Some(chain)) => tx_chain(chain.0, chain.1, n0, q, m, n1, q1, m1, t),
            },
    }
}

/// At most `k` turns of the transmit loop.
pub open spec fn tx_rel<ND: NetDevice>(
    k: nat,
    n0: Net<ND>,
    q0: QueuesView,
    m0: Memory,
    n1: Net<ND>,
    q1: QueuesView,
    m1: Memory,
    t: Turn,
) -> bool
    decreases k,
{
    if k == 0 {
        n1 == n0 && q1 == q0 && m1 == m0 && t == Turn::More
    } else {
        exists|n: Net<ND>, q: QueuesView, m: Memory, s: Turn|
            {
                &&& #[trigger] through((n, q, m, s))
                &&& tx_rel((k - 1) as nat, n0, q0, m0, n, q, m, s)
                &&& if s is More {
                    tx_turn(n, q, m, n1, q1, m1, t)
                } else {
                    n1 == n && q1 == q && m1 == m && t == s
                }
            }
    }
}

/// The index before `x`.
pub open spec fn pred(x: u16) -> u16 {
    ((x - 1) % 0x1_0000) as u16
}

/// The header of a received frame: one buffer, nothing offloaded.
pub open spec fn rx_header() -> Seq<u8> {
    seq![0u8, 0u8, 0u8, 0u8, 0u8, 0u8, 0u8, 0u8, 0u8, 0u8, 1u8, 0u8]
}

/// Whether a frame goes straight into the buffers of a chain: they hold the
/// longest frame, and no byte twice.
pub open spec fn direct(desc: Seq<Descriptor>, regions: Seq<(u64, u64)>, limit: usize) -> bool {
    HEADER + limit <= length(desc) && !overlapping(spread(regions, desc))
}

/// Why a chain cannot receive a frame.
pub open spec fn rx_error(desc: Seq<Descriptor>, regions: Seq<(u64, u64)>) -> Option<DeviceError> {
    if !all_writable(desc, true) {
        Some(DeviceError::RxDescriptorMustBeWritable)
    } else if length(desc) > usize::MAX {
        Some(DeviceError::RxLengthOverflow)
    } else if !reachable(regions, desc) {
        Some(DeviceError::GuestAccess)
    } else {
        None
    }
}

/// Handing a frame of `len` bytes to the guest: one that does not fit is
/// dropped, and completes its chain empty.
pub open spec fn rx_deliver(
    head: u16,
    desc: Seq<Descriptor>,
    limit: usize,
    len: usize,
    written: Seq<u8>,
    q0: QueuesView,
    m0: Memory,
    q1: QueuesView,
    m1: Memory,
    t: Turn,
) -> bool {
    let all = spread(m0.regions, desc);
    if len < 14 || limit < len {
        q1 == q0 && m1 == m0 && t == Turn::Failed(
            DeviceError::InvalidBackendRxPacketSize { length: len, capacity: limit },
        )
    } else if length(desc) < HEADER + len {
        exists|r: Result<(), DeviceError>|
            #[trigger] complete_rel(q0, 0, m0, head, 0, q1, m1, r) && t == after_completion(r)
    } else {
        let m = m0.after_all(writes(span(all, 0, written.len() as int), written));
        exists|r: Result<(), DeviceError>|
            #[trigger] complete_rel(q0, 0, m, head, (HEADER + len) as u32, q1, m1, r) && t
                == after_completion(r)
    }
}

/// Giving a chain back to the queue it was popped from.
pub open spec fn returned(q: QueuesView) -> QueuesView {
    q.with_ring(0, Ring { next_avail: pred(q.rings[0].next_avail), ..q.rings[0] })
}

/// Receiving into a popped chain.
pub open spec fn rx_chain<ND: NetDevice>(
    head: u16,
    desc: Seq<Descriptor>,
    n0: Net<ND>,
    q0: QueuesView,
    m0: Memory,
    n1: Net<ND>,
    q1: QueuesView,
    m1: Memory,
    t: Turn,
) -> bool {
    let all = spread(m0.regions, desc);
    match rx_error(desc, m0.regions) {
        Some(e) => n1 == n0 && q1 == q0 && m1 == m0 && t == Turn::Failed(e),
        None => {
            &&& n1.config == n0.config && n1.limit == n0.limit && n1.tx == n0.tx
            &&& n1.pending_tx == n0.pending_tx
            &&& if direct(desc, m0.regions, n0.limit) {
                exists|x: Result<Option<usize>, NetError>, m: Memory|
                    {
                        let buffer = span(all, HEADER as int, n0.limit as int);
                        &&& #[trigger] through((x, m))
                        &&& n1.backend.calls() == n0.backend.calls().push(
                            NetCall::Recv { buffer, result: x },
                        )
                        &&& handled(m0, m, buffer, true)
                        &&& match x {
                            Err(e) => q1 == q0 && m1 == m && t == Turn::Failed(
                                DeviceError::Net(e),
                            ),
                            Ok(None) => q1 == returned(q0) && m1 == m0 && t == Turn::Done,
                            Ok(Some(len)) => rx_deliver(
                                head,
                                desc,
                                n0.limit,
                                len,
                                rx_header(),
                                q0,
                                m,
                                q1,
                                m1,
                                t,
                            ),
                        }
                    }
            } else {
                exists|x: Result<Option<Vec<u8>>, NetError>|
                    {
                        &&& #[trigger] through(x)
                        &&& n1.backend.calls() == n0.backend.calls().push(
                            NetCall::Fetch { capacity: n0.limit, result: x },
                        )
                        &&& match x {
                            Err(e) => q1 == q0 && m1 == m0 && t == Turn::Failed(
                                DeviceError::Net(e),
                            ),
                            Ok(None) => q1 == returned(q0) && m1 == m0 && t == Turn::Done,
                            Ok(Some(frame)) => rx_deliver(
                                head,
                                desc,
                                n0.limit,
                                frame@.len() as usize,
                                rx_header() + frame@,
                                q0,
                                m0,
                                q1,
                                m1,
                                t,
                            ),
                        }
                    }
            }
        },
    }
}

/// One turn of the receive loop.
pub open spec fn rx_turn<ND: NetDevice>(
    n0: Net<ND>,
    q0: QueuesView,
    m0: Memory,
    n1: Net<ND>,
    q1: QueuesView,
    m1: Memory,
    t: Turn,
) -> bool {
    exists|q: QueuesView, m: Memory, c: Result<Option<(u16, Seq<Descriptor>)>, DeviceError>|
        #[trigger] pop_rel(q0, 0, m0, q, m, c) && match c {
            Err(e) => n1 == n0 && q1 == q && m1 == m && t == Turn::Failed(e),
            Ok(None) => n1 == n0 && q1 == q && m1 == m && t == Turn::Done,
            Ok(Some(chain)) => rx_chain(chain.0, chain.1, n0, q, m, n1, q1, m1, t),
        }
}

/// At most `k` turns of the receive loop.
pub open spec fn rx_rel<ND: NetDevice>(
    k: nat,
    n0: Net<ND>,
    q0: QueuesView,
    m0: Memory,
    n1: Net<ND>,
    q1: QueuesView,
    m1: Memory,
    t: Turn,
) -> bool
    decreases k,
{
    if k == 0 {
        n1 == n0 && q1 == q0 && m1 == m0 && t == Turn::More
    } else {
        exists|n: Net<ND>, q: QueuesView, m: Memory, s: Turn|
            {
                &&& #[trigger] through((n, q, m, s))
                &&& rx_rel((k - 1) as nat, n0, q0, m0, n, q, m, s)
                &&& if s is More {
                    rx_turn(n, q, m, n1, q1, m1, t)
                } else {
                    n1 == n && q1 == q && m1 == m && t == s
                }
            }
    }
}

proof fn lemma_tx_stop<ND: NetDevice>(
    k: nat,
    j: nat,
    n0: Net<ND>,
    q0: QueuesView,
    m0: Memory,
    n1: Net<ND>,
    q1: QueuesView,
    m1: Memory,
    t: Turn,
)
    requires
        k <= j,
        !(t is More),
        tx_rel(k, n0, q0, m0, n1, q1, m1, t),
    ensures
        tx_rel(j, n0, q0, m0, n1, q1, m1, t),
    decreases j - k,
{
    if k < j {
        assert(through((n1, q1, m1, t)));
        assert(tx_rel(k + 1, n0, q0, m0, n1, q1, m1, t));
        lemma_tx_stop(k + 1, j, n0, q0, m0, n1, q1, m1, t);
    }
}

proof fn lemma_rx_stop<ND: NetDevice>(
    k: nat,
    j: nat,
    n0: Net<ND>,
    q0: QueuesView,
    m0: Memory,
    n1: Net<ND>,
    q1: QueuesView,
    m1: Memory,
    t: Turn,
)
    requires
        k <= j,
        !(t is More),
        rx_rel(k, n0, q0, m0, n1, q1, m1, t),
    ensures
        rx_rel(j, n0, q0, m0, n1, q1, m1, t),
    decreases j - k,
{
    if k < j {
        assert(through((n1, q1, m1, t)));
        assert(rx_rel(k + 1, n0, q0, m0, n1, q1, m1, t));
        lemma_rx_stop(k + 1, j, n0, q0, m0, n1, q1, m1, t);
    }
}

fn make_rx_header() -> (r: Vec<u8>)
    ensures
        r@ == rx_header(),
{
    let mut h: Vec<u8> = Vec::new();
    let mut i: usize = 0;
    while i < 10
        invariant
            i <= 10,
            h@.len() == i,
            forall|k: int| 0 <= k < i ==> h@[k] == 0u8,
        decreases 10 - i,
    {
        h.push(0);
        i = i + 1;
    }
    h.push(1);
    h.push(0);
    assert(h@ =~= rx_header());
    h
}

fn turn_of(r: Result<(), DeviceError>) -> (t: Turn)
    ensures
        t == after_completion(r),
{
    match r {
        Ok(()) => Turn::More,
        Err(e) => Turn::Failed(e),
    }
}

impl<ND: NetDevice> Net<ND> {
    /// The invariant of the device.
    pub open spec fn sound(&self) -> bool {
        &&& self.config@.len() == 12
        &&& 82 <= self.limit <= 65535 + 18
    }

    /// A device for `backend`, whose frame length and address must be usable.
    pub fn new(backend: ND) -> (r: Result<Self, DeviceError>)
        ensures
            r is Ok <==> capacity_ok(ND::MTU, backend.frame_limit()) && mac_ok(backend.mac()@),
            r matches Ok(n) ==> {
                &&& n.backend == backend
                &&& n.config@ == net_config(backend.mac()@, ND::MTU)
                &&& n.limit == backend.frame_limit()
                &&& n.pending_tx is None
                &&& n.tx@ == Seq::<u8>::empty()
                &&& n.wf()
            },
            r matches Err(e) ==> e == if capacity_ok(ND::MTU, backend.frame_limit()) {
                DeviceError::NetworkMacMustBeNonzeroUnicast
            } else {
                DeviceError::InvalidNetworkMtuFrameCapacity {
                    mtu: ND::MTU,
                    capacity: backend.frame_limit(),
                }
            },
    {
        let max: usize = backend.max_frame_len();
        let mtu: u16 = ND::MTU;
        if !(mtu >= 68 && max >= mtu as usize + 14 && max <= 65535 + 18) {
            return Err(DeviceError::InvalidNetworkMtuFrameCapacity { mtu, capacity: max });
        }
        let mac: [u8; 6] = backend.mac_address();
        let mut config: Vec<u8> = Vec::new();
        let mut zero: bool = true;
        let mut i: usize = 0;
        while i < 6
            invariant
                i <= 6,
                config@ =~= mac@.take(i as int),
                zero == forall|k: int| 0 <= k < i ==> mac@[k] == 0,
            decreases 6 - i,
        {
            if mac[i] != 0 {
                zero = false;
            }
            config.push(mac[i]);
            i = i + 1;
        }
        if mac[0] % 2 != 0 || zero {
            return Err(DeviceError::NetworkMacMustBeNonzeroUnicast);
        }
        let mut pad: usize = 0;
        while pad < 4
            invariant
                pad <= 4,
                config@ =~= mac@ + Seq::new(pad as nat, |i: int| 0u8),
            decreases 4 - pad,
        {
            config.push(0);
            pad = pad + 1;
        }
        let mut tail: Vec<u8> = put_le16(mtu);
        config.append(&mut tail);
        assert(config@ =~= net_config(mac@, mtu));
        Ok(Net { backend, config, limit: max, pending_tx: None, tx: Vec::new() })
    }

    fn transmit_chain(&mut self, chain: &Chain, queues: &mut Queues, mem: &mut Guest) -> (t: Turn)
        requires
            old(self).sound(),
            old(queues)@.wf(),
            old(queues).rings@.len() == 2,
        ensures
            final(self).sound(),
            final(queues)@.wf(),
            final(queues)@.kept(old(queues)@),
            final(mem)@.same(old(mem)@),
            tx_chain(
                chain.head,
                chain.descriptors@,
                *old(self),
                old(queues)@,
                old(mem)@,
                *final(self),
                final(queues)@,
                final(mem)@,
                t,
            ),
    {
        let ghost n0 = *self;
        let ghost q0 = queues@;
        let ghost m0 = mem@;
        let desc: &[Descriptor] = chain.descriptors.as_slice();
        if !is_all_writable(desc, false) {
            return Turn::Failed(DeviceError::TxDescriptorMustBeReadable);
        }
        let sum: usize = match sum_lengths(desc) {
            None => {
                return Turn::Failed(DeviceError::TxLengthOverflow);
            },
            Some(sum) => sum,
        };
        if sum < HEADER + 14 || HEADER + self.limit < sum {
            return Turn::Failed(
                DeviceError::InvalidTxPacketSize { length: sum, capacity: HEADER + self.limit },
            );
        }
        let all: Vec<Segment> = match slices(mem, desc) {
            Ok(all) => all,
            Err(e) => {
                return Turn::Failed(e);
            },
        };
        let h: Vec<u8> = copy_to(all.as_slice(), HEADER, mem);
        let ghost m = mem@;
        if h[0] != 0 || h[1] != 0 {
            assert(through((h@, Ok::<bool, NetError>(true), m)));
            return Turn::Failed(DeviceError::UnnegotiatedTxChecksumGsoOffload);
        }
        let size: usize = sum - HEADER;
        let frame: Vec<Segment> = range(all.as_slice(), HEADER, size);
        proof {
            crate::devices::buffers::lemma_span(m.regions, all@, HEADER as int, size as int);
        }
        let x: Result<bool, NetError> = self.backend.send(frame.as_slice(), mem);
        let ghost m = mem@;
        assert(through((h@, x, m)));
        match x {
            Err(e) => Turn::Failed(DeviceError::Net(e)),
            Ok(false) => {
                self.tx = copy_to(frame.as_slice(), size, mem);
                self.pending_tx = Some(chain.head);
                Turn::Done
            },
            Ok(true) => {
                let r: Result<(), DeviceError> = queues.complete(1, mem, chain.head, 0);
                assert(complete_rel(q0, 1, m, chain.head, 0, queues@, mem@, r));
                turn_of(r)
            },
        }
    }

    fn transmit_turn(&mut self, queues: &mut Queues, mem: &mut Guest) -> (t: Turn)
        requires
            old(self).sound(),
            old(queues)@.wf(),
            old(queues).rings@.len() == 2,
        ensures
            final(self).sound(),
            final(queues)@.wf(),
            final(queues)@.kept(old(queues)@),
            final(mem)@.same(old(mem)@),
            tx_turn(
                *old(self),
                old(queues)@,
                old(mem)@,
                *final(self),
                final(queues)@,
                final(mem)@,
                t,
            ),
    {
        let ghost n0 = *self;
        let ghost q0 = queues@;
        let ghost m0 = mem@;
        if let Some(head) = self.pending_tx {
            let x: Result<bool, NetError> = self.backend.resend(self.tx.as_slice());
            assert(through(x));
            return match x {
                Err(e) => Turn::Failed(DeviceError::Net(e)),
                Ok(false) => Turn::Done,
                Ok(true) => {
                    self.pending_tx = None;
                    let r: Result<(), DeviceError> = queues.complete(1, mem, head, 0);
                    assert(complete_rel(q0, 1, m0, head, 0, queues@, mem@, r));
                    turn_of(r)
                },
            };
        }
        let popped: Result<Option<Chain>, DeviceError> = queues.pop(1, mem);
        let ghost q = queues@;
        let ghost m = mem@;
        let ghost c = chain_view(popped);
        assert(pop_rel(q0, 1, m0, q, m, c));
        match popped {
            Err(e) => Turn::Failed(e),
            Ok(None) => Turn::Done,
            Ok(Some(chain)) => {
                let t: Turn = self.transmit_chain(&chain, queues, mem);
                assert(tx_chain(
                    (c->Ok_0->0).0,
                    (c->Ok_0->0).1,
                    n0,
                    q,
                    m,
                    *self,
                    queues@,
                    mem@,
                    t,
                ));
                t
            },
        }
    }

    /// Sends the frames that the driver has queued, until the backend refuses
    /// one. A refused frame is kept and offered again.
    pub fn transmit(&mut self, queues: &mut Queues, mem: &mut Guest) -> (r: Result<
        (),
        DeviceError,
    >)
        requires
            old(self).sound(),
            old(queues)@.wf(),
            old(queues).rings@.len() == 2,
        ensures
            final(self).sound(),
            final(queues)@.wf(),
            final(queues)@.kept(old(queues)@),
            final(mem)@.same(old(mem)@),
            transmit_rel(
                *old(self),
                old(queues)@,
                old(mem)@,
                *final(self),
                final(queues)@,
                final(mem)@,
                r,
            ),
    {
        let ghost n0 = *self;
        let ghost q0 = queues@;
        let ghost m0 = mem@;
        let mut i: usize = 0;
        while i < BUDGET
            invariant
                i <= BUDGET,
                self.sound(),
                queues@.wf(),
                queues@.kept(q0),
                q0.rings.len() == 2,
                mem@.same(m0),
                n0 == *old(self),
                q0 == old(queues)@,
                m0 == old(mem)@,
                tx_rel(i as nat, n0, q0, m0, *self, queues@, mem@, Turn::More),
            decreases BUDGET - i,
        {
            let ghost n2 = *self;
            let ghost q2 = queues@;
            let ghost m2 = mem@;
            let t: Turn = self.transmit_turn(queues, mem);
            proof {
                assert(through((n2, q2, m2, Turn::More)));
                assert(tx_rel((i + 1) as nat, n0, q0, m0, *self, queues@, mem@, t));
                if !(t is More) {
                    lemma_tx_stop(
                        (i + 1) as nat,
                        BUDGET as nat,
                        n0,
                        q0,
                        m0,
                        *self,
                        queues@,
                        mem@,
                        t,
                    );
                }
            }
            match t {
                Turn::More => {},
                Turn::Done => {
                    return Ok(());
                },
                Turn::Failed(e) => {
                    return Err(e);
                },
            }
            i = i + 1;
        }
        Ok(())
    }

    fn deliver(
        &self,
        chain: &Chain,
        all: &Vec<Segment>,
        capacity: usize,
        len: usize,
        written: &Vec<u8>,
        queues: &mut Queues,
        mem: &mut Guest,
    ) -> (t: Turn)
        requires
            self.sound(),
            old(queues)@.wf(),
            old(queues).rings@.len() == 2,
            capacity == length(chain.descriptors@),
            all@ == spread(old(mem)@.regions, chain.descriptors@),
            within(old(mem)@.regions, all@),
            total(all@) == capacity,
            written@.len() <= HEADER + len,
        ensures
            final(queues)@.wf(),
            final(queues)@.kept(old(queues)@),
            final(mem)@.same(old(mem)@),
            rx_deliver(
                chain.head,
                chain.descriptors@,
                self.limit,
                len,
                written@,
                old(queues)@,
                old(mem)@,
                final(queues)@,
                final(mem)@,
                t,
            ),
    {
        let ghost q0 = queues@;
        let ghost m0 = mem@;
        if len < 14 || self.limit < len {
            return Turn::Failed(
                DeviceError::InvalidBackendRxPacketSize { length: len, capacity: self.limit },
            );
        }
        if capacity < HEADER + len {
            let r: Result<(), DeviceError> = queues.complete(0, mem, chain.head, 0);
            assert(complete_rel(q0, 0, m0, chain.head, 0, queues@, mem@, r));
            return turn_of(r);
        }
        copy_from(all.as_slice(), written.as_slice(), mem);
        let ghost m = mem@;
        let r: Result<(), DeviceError> = queues.complete(
            0,
            mem,
            chain.head,
            (HEADER + len) as u32,
        );
        assert(complete_rel(q0, 0, m, chain.head, (HEADER + len) as u32, queues@, mem@, r));
        turn_of(r)
    }

    fn give_back(&self, queues: &mut Queues)
        requires
            old(queues)@.wf(),
            old(queues).rings@.len() == 2,
        ensures
            final(queues)@.wf(),
            final(queues)@.kept(old(queues)@),
            final(queues)@ == returned(old(queues)@),
    {
        let ghost q0 = queues@;
        let mut ring: Ring = queues.rings[0];
        assert(q0.rings[0].wf());
        ring.next_avail = ring.next_avail.wrapping_sub(1);
        queues.rings.set(0, ring);
        assert forall|i: int| 0 <= i < queues@.rings.len() implies (
        #[trigger] queues@.rings[i]).wf() by {
            if i != 0 {
                assert(q0.rings[i].wf());
            }
        }
        assert(queues@ =~= returned(q0));
    }

    fn receive_chain(&mut self, chain: &Chain, queues: &mut Queues, mem: &mut Guest) -> (t: Turn)
        requires
            old(self).sound(),
            old(queues)@.wf(),
            old(queues).rings@.len() == 2,
        ensures
            final(self).sound(),
            final(queues)@.wf(),
            final(queues)@.kept(old(queues)@),
            final(mem)@.same(old(mem)@),
            rx_chain(
                chain.head,
                chain.descriptors@,
                *old(self),
                old(queues)@,
                old(mem)@,
                *final(self),
                final(queues)@,
                final(mem)@,
                t,
            ),
    {
        let ghost n0 = *self;
        let ghost q0 = queues@;
        let ghost m0 = mem@;
        let desc: &[Descriptor] = chain.descriptors.as_slice();
        if !is_all_writable(desc, true) {
            return Turn::Failed(DeviceError::RxDescriptorMustBeWritable);
        }
        let capacity: usize = match sum_lengths(desc) {
            None => {
                return Turn::Failed(DeviceError::RxLengthOverflow);
            },
            Some(sum) => sum,
        };
        let all: Vec<Segment> = match slices(mem, desc) {
            Ok(all) => all,
            Err(e) => {
                return Turn::Failed(e);
            },
        };
        let straight: bool = capacity >= HEADER + self.limit && !overlaps(all.as_slice());
        if straight {
            let buffer: Vec<Segment> = range(all.as_slice(), HEADER, self.limit);
            let x: Result<Option<usize>, NetError> = self.backend.recv(buffer.as_slice(), mem);
            assert(through((x, mem@)));
            match x {
                Err(e) => Turn::Failed(DeviceError::Net(e)),
                Ok(None) => {
                    self.give_back(queues);
                    Turn::Done
                },
                Ok(Some(len)) => {
                    let header: Vec<u8> = make_rx_header();
                    if len < 14 || self.limit < len {
                        return Turn::Failed(
                            DeviceError::InvalidBackendRxPacketSize {
                                length: len,
                                capacity: self.limit,
                            },
                        );
                    }
                    self.deliver(chain, &all, capacity, len, &header, queues, mem)
                },
            }
        } else {
            let x: Result<Option<Vec<u8>>, NetError> = self.backend.fetch(self.limit);
            assert(through(x));
            match x {
                Err(e) => Turn::Failed(DeviceError::Net(e)),
                Ok(None) => {
                    self.give_back(queues);
                    Turn::Done
                },
                Ok(Some(frame)) => {
                    let len: usize = frame.len();
                    if len < 14 || self.limit < len {
                        return Turn::Failed(
                            DeviceError::InvalidBackendRxPacketSize {
                                length: len,
                                capacity: self.limit,
                            },
                        );
                    }
                    let mut written: Vec<u8> = make_rx_header();
                    let ghost data = frame@;
                    let mut frame: Vec<u8> = frame;
                    written.append(&mut frame);
                    assert(written@ =~= rx_header() + data);
                    self.deliver(chain, &all, capacity, len, &written, queues, mem)
                },
            }
        }
    }

    fn receive_turn(&mut self, queues: &mut Queues, mem: &mut Guest) -> (t: Turn)
        requires
            old(self).sound(),
            old(queues)@.wf(),
            old(queues).rings@.len() == 2,
        ensures
            final(self).sound(),
            final(queues)@.wf(),
            final(queues)@.kept(old(queues)@),
            final(mem)@.same(old(mem)@),
            rx_turn(
                *old(self),
                old(queues)@,
                old(mem)@,
                *final(self),
                final(queues)@,
                final(mem)@,
                t,
            ),
    {
        let ghost n0 = *self;
        let ghost q0 = queues@;
        let ghost m0 = mem@;
        let popped: Result<Option<Chain>, DeviceError> = queues.pop(0, mem);
        let ghost q = queues@;
        let ghost m = mem@;
        let ghost c = chain_view(popped);
        assert(pop_rel(q0, 0, m0, q, m, c));
        match popped {
            Err(e) => Turn::Failed(e),
            Ok(None) => Turn::Done,
            Ok(Some(chain)) => {
                let t: Turn = self.receive_chain(&chain, queues, mem);
                assert(rx_chain(
                    (c->Ok_0->0).0,
                    (c->Ok_0->0).1,
                    n0,
                    q,
                    m,
                    *self,
                    queues@,
                    mem@,
                    t,
                ));
                t
            },
        }
    }

    /// Receives frames into the chains that the driver has queued, until there
    /// is no frame. A chain without a frame stays available.
    pub fn receive(&mut self, queues: &mut Queues, mem: &mut Guest) -> (r: Result<
        (),
        DeviceError,
    >)
        requires
            old(self).sound(),
            old(queues)@.wf(),
            old(queues).rings@.len() == 2,
        ensures
            final(self).sound(),
            final(queues)@.wf(),
            final(queues)@.kept(old(queues)@),
            final(mem)@.same(old(mem)@),
            receive_rel(
                *old(self),
                old(queues)@,
                old(mem)@,
                *final(self),
                final(queues)@,
                final(mem)@,
                r,
            ),
    {
        let ghost n0 = *self;
        let ghost q0 = queues@;
        let ghost m0 = mem@;
        let mut i: usize = 0;
        while i < BUDGET
            invariant
                i <= BUDGET,
                self.sound(),
                queues@.wf(),
                queues@.kept(q0),
                q0.rings.len() == 2,
                mem@.same(m0),
                n0 == *old(self),
                q0 == old(queues)@,
                m0 == old(mem)@,
                rx_rel(i as nat, n0, q0, m0, *self, queues@, mem@, Turn::More),
            decreases BUDGET - i,
        {
            let ghost n2 = *self;
            let ghost q2 = queues@;
            let ghost m2 = mem@;
            let t: Turn = self.receive_turn(queues, mem);
            proof {
                assert(through((n2, q2, m2, Turn::More)));
                assert(rx_rel((i + 1) as nat, n0, q0, m0, *self, queues@, mem@, t));
                if !(t is More) {
                    lemma_rx_stop(
                        (i + 1) as nat,
                        BUDGET as nat,
                        n0,
                        q0,
                        m0,
                        *self,
                        queues@,
                        mem@,
                        t,
                    );
                }
            }
            match t {
                Turn::More => {},
                Turn::Done => {
                    return Ok(());
                },
                Turn::Failed(e) => {
                    return Err(e);
                },
            }
            i = i + 1;
        }
        Ok(())
    }
}

/// A whole transmit loop.
pub open spec fn transmit_rel<ND: NetDevice>(
    n0: Net<ND>,
    q0: QueuesView,
    m0: Memory,
    n1: Net<ND>,
    q1: QueuesView,
    m1: Memory,
    r: Result<(), DeviceError>,
) -> bool {
    exists|t: Turn|
        #[trigger] tx_rel(BUDGET as nat, n0, q0, m0, n1, q1, m1, t) && r == outcome(t)
}

/// A whole receive loop.
pub open spec fn receive_rel<ND: NetDevice>(
    n0: Net<ND>,
    q0: QueuesView,
    m0: Memory,
    n1: Net<ND>,
    q1: QueuesView,
    m1: Memory,
    r: Result<(), DeviceError>,
) -> bool {
    exists|t: Turn|
        #[trigger] rx_rel(BUDGET as nat, n0, q0, m0, n1, q1, m1, t) && r == outcome(t)
}

impl<ND: NetDevice> VirtioDevice for Net<ND> {
    open spec fn wf(&self) -> bool {
        self.sound()
    }

    open spec fn id_of(&self) -> u32 {
        1
    }

    open spec fn offered(&self) -> u64 {
        FEATURES
    }

    open spec fn required(&self) -> u64 {
        0
    }

    open spec fn queues_of(&self) -> nat {
        2
    }

    open spec fn config(&self) -> Seq<u8> {
        self.config@
    }

    open spec fn generation_of(&self) -> u32 {
        0
    }

    open spec fn notify_rel(
        d0: Self,
        queue: int,
        q0: QueuesView,
        m0: Memory,
        d1: Self,
        q1: QueuesView,
        m1: Memory,
        r: Result<(), DeviceError>,
    ) -> bool {
        if queue == 0 {
            receive_rel(d0, q0, m0, d1, q1, m1, r)
        } else {
            transmit_rel(d0, q0, m0, d1, q1, m1, r)
        }
    }

    open spec fn poll_rel(
        d0: Self,
        q0: QueuesView,
        m0: Memory,
        d1: Self,
        q1: QueuesView,
        m1: Memory,
        r: Result<(), DeviceError>,
    ) -> bool {
        exists|d: Self, q: QueuesView, m: Memory, x: Result<(), DeviceError>|
            #[trigger] transmit_rel(d0, q0, m0, d, q, m, x) && if x is Err {
                d1 == d && q1 == q && m1 == m && r == x
            } else {
                receive_rel(d, q, m, d1, q1, m1, r)
            }
    }

    open spec fn reset_rel(d0: Self, d1: Self, r: Result<(), DeviceError>) -> bool {
        &&& r == Ok::<(), DeviceError>(())
        &&& d1.backend == d0.backend
        &&& d1.config == d0.config
        &&& d1.limit == d0.limit
        &&& d1.pending_tx is None
        &&& d1.tx@ == Seq::<u8>::empty()
    }

    open spec fn flush_rel(d0: Self, d1: Self, r: Result<(), DeviceError>) -> bool {
        d1 == d0 && r == Ok::<(), DeviceError>(())
    }

    fn required_features(&self) -> (r: u64) {
        0
    }

    fn generation(&self) -> (r: u32) {
        0
    }

    fn device_id(&self) -> (r: u32) {
        1
    }

    fn features(&self) -> (r: u64) {
        FEATURES
    }

    fn queue_count(&self) -> (r: usize) {
        2
    }

    fn read_config(&self, offset: usize, width: usize) -> (r: Vec<u8>) {
        read_config(self.config.as_slice(), offset, width)
    }

    fn notify(&mut self, queue: usize, queues: &mut Queues, mem: &mut Guest) -> (r: Result<
        (),
        DeviceError,
    >) {
        if queue == 0 {
            self.receive(queues, mem)
        } else {
            self.transmit(queues, mem)
        }
    }

    fn poll(&mut self, queues: &mut Queues, mem: &mut Guest) -> (r: Result<(), DeviceError>) {
        let ghost d0 = *self;
        let ghost q0 = queues@;
        let ghost m0 = mem@;
        let x: Result<(), DeviceError> = self.transmit(queues, mem);
        assert(transmit_rel(d0, q0, m0, *self, queues@, mem@, x));
        if x.is_err() {
            return x;
        }
        self.receive(queues, mem)
    }

    fn reset(&mut self) -> (r: Result<(), DeviceError>) {
        self.pending_tx = None;
        self.tx = Vec::new();
        Ok(())
    }

    fn flush(&mut self) -> (r: Result<(), DeviceError>) {
        Ok(())
    }
}

/// A turn that finds no frame leaves the queue as it was: the chain that it had
/// taken is there again.
pub proof fn empty_receive_gives_the_chain_back<ND: NetDevice>(
    n0: Net<ND>,
    q0: QueuesView,
    m0: Memory,
    n1: Net<ND>,
    q1: QueuesView,
    m1: Memory,
)
    requires
        q0.rings.len() > 0,
        rx_turn(n0, q0, m0, n1, q1, m1, Turn::Done),
    ensures
        q1 == q0,
{
    let (q, m, c) = choose|
        q: QueuesView,
        m: Memory,
        c: Result<Option<(u16, Seq<Descriptor>)>, DeviceError>,
    |
        #[trigger] pop_rel(q0, 0, m0, q, m, c) && match c {
            Err(e) => n1 == n0 && q1 == q && m1 == m && Turn::Done == Turn::Failed(e),
            Ok(None) => n1 == n0 && q1 == q && m1 == m && Turn::Done == Turn::Done,
            Ok(Some(chain)) => rx_chain(chain.0, chain.1, n0, q, m, n1, q1, m1, Turn::Done),
        };
    assert(q1.rings =~= q0.rings);
    assert(q1 =~= q0);
}

/// The first turn of the transmit loop, and the others.
proof fn lemma_first_turn<ND: NetDevice>(
    k: nat,
    n0: Net<ND>,
    q0: QueuesView,
    m0: Memory,
    n1: Net<ND>,
    q1: QueuesView,
    m1: Memory,
    t: Turn,
) -> (first: (Net<ND>, QueuesView, Memory, Turn))
    requires
        k > 0,
        tx_rel(k, n0, q0, m0, n1, q1, m1, t),
    ensures
        tx_turn(n0, q0, m0, first.0, first.1, first.2, first.3),
        if first.3 is More {
            tx_rel((k - 1) as nat, first.0, first.1, first.2, n1, q1, m1, t)
        } else {
            n1 == first.0 && q1 == first.1 && m1 == first.2 && t == first.3
        },
    decreases k,
{
    let (n, q, m, s) = choose|n: Net<ND>, q: QueuesView, m: Memory, s: Turn|
        {
            &&& #[trigger] through((n, q, m, s))
            &&& tx_rel((k - 1) as nat, n0, q0, m0, n, q, m, s)
            &&& if s is More {
                tx_turn(n, q, m, n1, q1, m1, t)
            } else {
                n1 == n && q1 == q && m1 == m && t == s
            }
        };
    if k == 1 {
        assert(t is More ==> tx_rel(0, n1, q1, m1, n1, q1, m1, t));
        (n1, q1, m1, t)
    } else {
        let first = lemma_first_turn((k - 1) as nat, n0, q0, m0, n, q, m, s);
        if first.3 is More {
            assert(through((n, q, m, s)));
            assert(tx_rel((k - 1) as nat, first.0, first.1, first.2, n1, q1, m1, t));
        }
        first
    }
}

/// `after` holds the calls of `before`, and then only offers of new frames.
pub open spec fn offers_new_frames(before: Seq<NetCall>, after: Seq<NetCall>) -> bool {
    &&& before.len() <= after.len()
    &&& after.take(before.len() as int) == before
    &&& forall|i: int| before.len() <= i < after.len() ==> (#[trigger] after[i]) is Send
}

/// With no frame kept, only new ones are offered.
proof fn lemma_new_frames<ND: NetDevice>(
    k: nat,
    n0: Net<ND>,
    q0: QueuesView,
    m0: Memory,
    n1: Net<ND>,
    q1: QueuesView,
    m1: Memory,
    t: Turn,
)
    requires
        n0.pending_tx is None,
        tx_rel(k, n0, q0, m0, n1, q1, m1, t),
    ensures
        offers_new_frames(n0.backend.calls(), n1.backend.calls()),
        t is More ==> n1.pending_tx is None,
    decreases k,
{
    let calls = n0.backend.calls();
    if k == 0 {
        assert(calls.take(calls.len() as int) =~= calls);
    } else {
        let (n, q, m, s) = choose|n: Net<ND>, q: QueuesView, m: Memory, s: Turn|
            {
                &&& #[trigger] through((n, q, m, s))
                &&& tx_rel((k - 1) as nat, n0, q0, m0, n, q, m, s)
                &&& if s is More {
                    tx_turn(n, q, m, n1, q1, m1, t)
                } else {
                    n1 == n && q1 == q && m1 == m && t == s
                }
            };
        lemma_new_frames((k - 1) as nat, n0, q0, m0, n, q, m, s);
        if s is More {
            lemma_new_turn(n, q, m, n1, q1, m1, t);
            if n1.backend.calls() != n.backend.calls() {
                assert(n1.backend.calls().take(calls.len() as int) =~= calls);
            }
        }
    }
}

/// The same for one turn.
proof fn lemma_new_turn<ND: NetDevice>(
    n0: Net<ND>,
    q0: QueuesView,
    m0: Memory,
    n1: Net<ND>,
    q1: QueuesView,
    m1: Memory,
    t: Turn,
)
    requires
        n0.pending_tx is None,
        tx_turn(n0, q0, m0, n1, q1, m1, t),
    ensures
        n1.backend.calls() == n0.backend.calls() || exists|call: NetCall|
            #[trigger] through(call) && call is Send && n1.backend.calls()
                == n0.backend.calls().push(call),
        t is More ==> n1.pending_tx is None,
{
    let (q, m, c) = choose|
        q: QueuesView,
        m: Memory,
        c: Result<Option<(u16, Seq<Descriptor>)>, DeviceError>,
    |
        #[trigger] pop_rel(q0, 1, m0, q, m, c) && match c {
            Err(e) => n1 == n0 && q1 == q && m1 == m && t == Turn::Failed(e),
            Ok(None) => n1 == n0 && q1 == q && m1 == m && t == Turn::Done,
            Ok(Some(chain)) => tx_chain(chain.0, chain.1, n0, q, m, n1, q1, m1, t),
        };
    if n1.backend.calls() != n0.backend.calls() {
        let call = n1.backend.calls().last();
        assert(through(call));
        assert(n1.backend.calls() =~= n0.backend.calls().push(call));
    }
}

/// What a call of the transmit loop does after the backend took the kept frame:
/// its chain is completed with length 0, and where that succeeds further chains
/// are sent.
pub open spec fn after_kept<ND: NetDevice>(
    head: u16,
    q0: QueuesView,
    m0: Memory,
    n: Net<ND>,
    q: QueuesView,
    m: Memory,
    w: Result<(), DeviceError>,
    n1: Net<ND>,
    q1: QueuesView,
    m1: Memory,
    r: Result<(), DeviceError>,
) -> bool {
    &&& n.pending_tx is None
    &&& complete_rel(q0, 1, m0, head, 0, q, m, w)
    &&& if w is Err {
        n1 == n && q1 == q && m1 == m && r == w
    } else {
        exists|t: Turn|
            #[trigger] tx_rel((BUDGET - 1) as nat, n, q, m, n1, q1, m1, t) && r == outcome(t)
    }
}

/// A frame that the backend refused is offered again as it was, before any
/// other, once in each call of the transmit loop. If it is refused again the
/// call does nothing else. If it is taken its chain is completed, once and with
/// length 0, the frame is kept no longer, and the call offers only new ones.
pub proof fn kept_frame_completes_once<ND: NetDevice>(
    head: u16,
    n0: Net<ND>,
    q0: QueuesView,
    m0: Memory,
    n1: Net<ND>,
    q1: QueuesView,
    m1: Memory,
    r: Result<(), DeviceError>,
)
    requires
        n0.pending_tx == Some(head),
        transmit_rel(n0, q0, m0, n1, q1, m1, r),
    ensures
        exists|x: Result<bool, NetError>|
            {
                let resent = n0.backend.calls().push(
                    NetCall::Resend { frame: n0.tx@, result: x },
                );
                &&& #[trigger] through(x)
                &&& match x {
                    Ok(true) => {
                        &&& offers_new_frames(resent, n1.backend.calls())
                        &&& exists|n: Net<ND>, q: QueuesView, m: Memory, w: Result<(), DeviceError>|
                            {
                                &&& n.backend.calls() == resent
                                &&& #[trigger] after_kept(
                                    head,
                                    q0,
                                    m0,
                                    n,
                                    q,
                                    m,
                                    w,
                                    n1,
                                    q1,
                                    m1,
                                    r,
                                )
                            }
                    },
                    _ => {
                        &&& n1.backend.calls() == resent
                        &&& n1.pending_tx == n0.pending_tx && n1.tx == n0.tx
                        &&& n1.config == n0.config && n1.limit == n0.limit
                        &&& q1 == q0 && m1 == m0
                        &&& r == match x {
                            Err(e) => Err::<(), DeviceError>(DeviceError::Net(e)),
                            Ok(_) => Ok(()),
                        }
                    },
                }
            },
{
    let t = choose|t: Turn|
        #[trigger] tx_rel(BUDGET as nat, n0, q0, m0, n1, q1, m1, t) && r == outcome(t);
    let (n, q, m, s) = lemma_first_turn(BUDGET as nat, n0, q0, m0, n1, q1, m1, t);
    let x = choose|x: Result<bool, NetError>|
        {
            &&& #[trigger] through(x)
            &&& n.backend.calls() == n0.backend.calls().push(
                NetCall::Resend { frame: n0.tx@, result: x },
            )
            &&& n.config == n0.config && n.limit == n0.limit && n.tx == n0.tx
            &&& match x {
                Err(e) => n.pending_tx == n0.pending_tx && q == q0 && m == m0 && s
                    == Turn::Failed(DeviceError::Net(e)),
                Ok(false) => n.pending_tx == n0.pending_tx && q == q0 && m == m0 && s
                    == Turn::Done,
                Ok(true) => n.pending_tx is None && exists|w: Result<(), DeviceError>|
                    #[trigger] complete_rel(q0, 1, m0, head, 0, q, m, w) && s
                        == after_completion(w),
            }
        };
    if x == Ok::<bool, NetError>(true) {
        let w = choose|w: Result<(), DeviceError>|
            #[trigger] complete_rel(q0, 1, m0, head, 0, q, m, w) && s == after_completion(w);
        let calls = n.backend.calls();
        if s is More {
            lemma_new_frames((BUDGET - 1) as nat, n, q, m, n1, q1, m1, t);
        } else {
            assert(calls.take(calls.len() as int) =~= calls);
        }
        assert(after_kept(head, q0, m0, n, q, m, w, n1, q1, m1, r));
    }
    assert(through(x));
}

/// A reset drops a kept frame: a call of the transmit loop after it offers only
/// new ones, so the frame is neither offered nor completed again.
pub proof fn reset_drops_kept_frame<ND: NetDevice>(
    d0: Net<ND>,
    d: Net<ND>,
    q0: QueuesView,
    m0: Memory,
    d1: Net<ND>,
    q1: QueuesView,
    m1: Memory,
    r: Result<(), DeviceError>,
)
    requires
        <Net<ND> as VirtioDevice>::reset_rel(d0, d, Ok(())),
        transmit_rel(d, q0, m0, d1, q1, m1, r),
    ensures
        d.pending_tx is None,
        d.backend == d0.backend,
        offers_new_frames(d0.backend.calls(), d1.backend.calls()),
{
    let t = choose|t: Turn|
        #[trigger] tx_rel(BUDGET as nat, d, q0, m0, d1, q1, m1, t) && r == outcome(t);
    lemma_new_frames(BUDGET as nat, d, q0, m0, d1, q1, m1, t);
}

/// A frame that the backend is offered out of guest memory is a whole one.
pub open spec fn whole_frame(call: NetCall, limit: usize) -> bool {
    call matches NetCall::Send { frame, result } ==> 14 <= total(frame) <= limit
}

/// A kept frame is offered again.
pub open spec fn resends(call: NetCall, kept: Seq<u8>) -> bool {
    call matches NetCall::Resend { frame, result } && frame == kept
}

/// `after` holds the calls of `before`, and then only offers of whole frames.
pub open spec fn offers_whole_frames(
    before: Seq<NetCall>,
    after: Seq<NetCall>,
    limit: usize,
) -> bool {
    &&& before.len() <= after.len()
    &&& after.take(before.len() as int) == before
    &&& forall|i: int|
        before.len() <= i < after.len() ==> whole_frame(#[trigger] after[i], limit)
}

proof fn lemma_offers_push(before: Seq<NetCall>, after: Seq<NetCall>, call: NetCall, limit: usize)
    requires
        offers_whole_frames(before, after, limit),
        whole_frame(call, limit),
    ensures
        offers_whole_frames(before, after.push(call), limit),
{
    assert(after.push(call).take(before.len() as int) =~= before);
}

proof fn lemma_turn_offers<ND: NetDevice>(
    n0: Net<ND>,
    q0: QueuesView,
    m0: Memory,
    n1: Net<ND>,
    q1: QueuesView,
    m1: Memory,
    t: Turn,
)
    requires
        crate::guest::ordered(m0.regions),
        q0.rings.len() > 1,
        tx_turn(n0, q0, m0, n1, q1, m1, t),
    ensures
        n1.backend.calls() == n0.backend.calls() || exists|call: NetCall|
            #[trigger] whole_frame(call, n0.limit) && n1.backend.calls()
                == n0.backend.calls().push(call),
        n0.pending_tx is Some ==> exists|x: Result<bool, NetError>|
            #[trigger] through(x) && n1.backend.calls() == n0.backend.calls().push(
                NetCall::Resend { frame: n0.tx@, result: x },
            ),
        n1.limit == n0.limit,
        m1.same(m0),
        q1.rings.len() == q0.rings.len(),
{
    if n0.pending_tx is Some {
        let x = choose|x: Result<bool, NetError>|
            #[trigger] through(x) && n1.backend.calls() == n0.backend.calls().push(
                NetCall::Resend { frame: n0.tx@, result: x },
            );
        assert(whole_frame(NetCall::Resend { frame: n0.tx@, result: x }, n0.limit));
    } else {
        let (q, m, c) = choose|
            q: QueuesView,
            m: Memory,
            c: Result<Option<(u16, Seq<Descriptor>)>, DeviceError>,
        |
            #[trigger] pop_rel(q0, 1, m0, q, m, c) && match c {
                Err(e) => n1 == n0 && q1 == q && m1 == m && t == Turn::Failed(e),
                Ok(None) => n1 == n0 && q1 == q && m1 == m && t == Turn::Done,
                Ok(Some(chain)) => tx_chain(chain.0, chain.1, n0, q, m, n1, q1, m1, t),
            };
        crate::devices::queues::pop_gives_sound_chain(q0, 1, m0, q, m, c);
        if let Ok(Some(chain)) = c {
            let desc = chain.1;
            let all = spread(m.regions, desc);
            let size = length(desc) - HEADER;
            if tx_error(desc, m.regions, n0.limit) is None {
                crate::devices::buffers::spread_is_complete(m.regions, desc);
                crate::devices::buffers::lemma_span(m.regions, all, HEADER as int, size);
                let frame = span(all, HEADER as int, size);
                let (h, x, after) = choose|h: Seq<u8>, x: Result<bool, NetError>, after: Memory|
                    {
                        &&& #[trigger] through((h, x, after))
                        &&& n1 == n0 || n1.backend.calls() == n0.backend.calls().push(
                            NetCall::Send { frame, result: x },
                        )
                    };
                assert(whole_frame(NetCall::Send { frame, result: x }, n0.limit));
            }
        }
    }
}

/// Every frame that is offered to the backend out of guest memory is whole: it
/// has an Ethernet header and is no longer than the backend takes. A frame that
/// it refused before is offered again before any other.
pub proof fn transmitted_frames_are_whole<ND: NetDevice>(
    k: nat,
    n0: Net<ND>,
    q0: QueuesView,
    m0: Memory,
    n1: Net<ND>,
    q1: QueuesView,
    m1: Memory,
    t: Turn,
)
    requires
        crate::guest::ordered(m0.regions),
        q0.rings.len() > 1,
        tx_rel(k, n0, q0, m0, n1, q1, m1, t),
    ensures
        offers_whole_frames(n0.backend.calls(), n1.backend.calls(), n0.limit),
        n0.pending_tx is Some && k > 0 ==> n1.backend.calls().len() > n0.backend.calls().len()
            && resends(n1.backend.calls()[n0.backend.calls().len() as int], n0.tx@),
        n1.limit == n0.limit,
        m1.same(m0),
        q1.rings.len() == q0.rings.len(),
    decreases k,
{
    let calls = n0.backend.calls();
    if k == 0 {
        assert(calls.take(calls.len() as int) =~= calls);
    } else {
        let (n, q, m, s) = choose|n: Net<ND>, q: QueuesView, m: Memory, s: Turn|
            {
                &&& #[trigger] through((n, q, m, s))
                &&& tx_rel((k - 1) as nat, n0, q0, m0, n, q, m, s)
                &&& if s is More {
                    tx_turn(n, q, m, n1, q1, m1, t)
                } else {
                    n1 == n && q1 == q && m1 == m && t == s
                }
            };
        transmitted_frames_are_whole((k - 1) as nat, n0, q0, m0, n, q, m, s);
        if s is More {
            lemma_turn_offers(n, q, m, n1, q1, m1, t);
            if n1.backend.calls() != n.backend.calls() {
                let call = choose|call: NetCall|
                    #[trigger] whole_frame(call, n.limit) && n1.backend.calls()
                        == n.backend.calls().push(call);
                lemma_offers_push(calls, n.backend.calls(), call, n0.limit);
            }
        }
    }
}

} // verus!

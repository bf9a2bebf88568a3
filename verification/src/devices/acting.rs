//! What each device does when its driver calls, when it is polled, when it is
//! flushed and when it is reset.
use crate::devices::frames::{
    drained, nothing_came, receiving_leaves_nothing_to_do, transmitting_leaves_nothing_to_do,
};
use crate::devices::mmio::VirtioDevice;
use crate::devices::net::transmit_rel;
use crate::devices::queues::QueuesView;
use crate::devices::requests::{
    a_notification_serves_every_chain, between, handed_back, heads, taken,
};
use crate::devices::Device;
use crate::error::{DeviceError, StorageError};
use crate::guest::{ordered, Access, Memory};
use crate::math::through;
use crate::net::NetDevice;
use crate::storage::{BlockCall, BlockStorage};
use vstd::prelude::*;

verus! {

/// A disk that is called serves all that its driver made available.
pub proof fn disks_serve_when_called<BS: BlockStorage, ND: NetDevice>(
    d0: Device<BS, ND>,
    queue: int,
    q0: QueuesView,
    m0: Memory,
    d1: Device<BS, ND>,
    q1: QueuesView,
    m1: Memory,
)
    requires
        d0 is Block,
        d0->Block_0.id@.len() == 20,
        Device::<BS, ND>::notify_rel(d0, queue, q0, m0, d1, q1, m1, Ok(())),
        q0.rings.len() == 1,
        ordered(m0.regions),
    ensures
        d1 is Block,
        m1.accesses.len() > m0.accesses.len(),
        m1.accesses[m0.accesses.len() as int] == (Access::AvailIdx {
            addr: q0.rings[0].avail_ring,
            value: Some(q1.rings[0].next_avail),
        }),
        q1.rings[0].next_used as int == (q0.rings[0].next_used + (q1.rings[0].next_avail
            - q0.rings[0].next_avail) % 0x1_0000) % 0x1_0000,
        heads(handed_back(between(m0, m1))) == taken(between(m0, m1)),
{
    a_notification_serves_every_chain(d0->Block_0, q0, m0, d1->Block_0, q1, m1);
}

/// A network interface that is called for its first queue receives what came, as
/// far as there is room; called for the second, it sends what its driver has to
/// send.
pub proof fn interfaces_work_when_called<BS: BlockStorage, ND: NetDevice>(
    d0: Device<BS, ND>,
    queue: int,
    q0: QueuesView,
    m0: Memory,
    d1: Device<BS, ND>,
    q1: QueuesView,
    m1: Memory,
)
    requires
        d0 is Net,
        d0->Net_0.limit <= 65535 + 18,
        0 <= queue < 2,
        Device::<BS, ND>::notify_rel(d0, queue, q0, m0, d1, q1, m1, Ok(())),
        q0.rings.len() == 2,
        ordered(m0.regions),
    ensures
        d1 is Net,
        queue == 0 ==> drained(q1, 0, m1) || nothing_came(d1->Net_0) || handed_back(
            between(m0, m1),
        ).len() == 64,
        queue == 1 ==> drained(q1, 1, m1) || d1->Net_0.pending_tx is Some || handed_back(
            between(m0, m1),
        ).len() == 64,
{
    if queue == 0 {
        receiving_leaves_nothing_to_do(d0->Net_0, q0, m0, d1->Net_0, q1, m1);
    } else {
        transmitting_leaves_nothing_to_do(d0->Net_0, q0, m0, d1->Net_0, q1, m1);
    }
}

/// A network interface that is polled sends what waits, and then receives.
pub proof fn interfaces_work_when_polled<BS: BlockStorage, ND: NetDevice>(
    d0: Device<BS, ND>,
    q0: QueuesView,
    m0: Memory,
    d1: Device<BS, ND>,
    q1: QueuesView,
    m1: Memory,
)
    requires
        d0 is Net,
        d0->Net_0.limit <= 65535 + 18,
        Device::<BS, ND>::poll_rel(d0, q0, m0, d1, q1, m1, Ok(())),
        q0.rings.len() == 2,
        ordered(m0.regions),
    ensures
        d1 is Net,
        exists|d: crate::devices::net::Net<ND>, q: QueuesView, m: Memory|
            {
                &&& #[trigger] transmit_rel(d0->Net_0, q0, m0, d, q, m, Ok(()))
                &&& drained(q, 1, m) || d.pending_tx is Some || handed_back(between(m0, m)).len()
                    == 64
                &&& drained(q1, 0, m1) || nothing_came(d1->Net_0) || handed_back(between(m, m1)).len()
                    == 64
            },
{
    let a = d0->Net_0;
    let b = d1->Net_0;
    let r = Ok::<(), DeviceError>(());
    let (d, q, m, x) = choose|
        d: crate::devices::net::Net<ND>,
        q: QueuesView,
        m: Memory,
        x: Result<(), DeviceError>,
    |
        #[trigger] transmit_rel(a, q0, m0, d, q, m, x) && if x is Err {
            b == d && q1 == q && m1 == m && r == x
        } else {
            crate::devices::net::receive_rel(d, q, m, b, q1, m1, r)
        };
    transmitting_leaves_nothing_to_do(a, q0, m0, d, q, m);
    receiving_leaves_nothing_to_do(d, q, m, b, q1, m1);
}

/// Disks have nothing to do between calls, and the memory device waits for a turn in
/// which no vCPU runs.
pub proof fn others_wait<BS: BlockStorage, ND: NetDevice>(
    d0: Device<BS, ND>,
    queue: int,
    q0: QueuesView,
    m0: Memory,
    d1: Device<BS, ND>,
    q1: QueuesView,
    m1: Memory,
    r: Result<(), DeviceError>,
)
    requires
        (d0 is Mem && Device::<BS, ND>::notify_rel(d0, queue, q0, m0, d1, q1, m1, r)) || (!(
        d0 is Net) && Device::<BS, ND>::poll_rel(d0, q0, m0, d1, q1, m1, r)),
    ensures
        d1 == d0,
        q1 == q0,
        m1 == m0,
        r is Ok,
{
}

/// To flush a disk is to flush its image, and the answer is the image's; to reset
/// it does the same. The others have nothing to flush. A reset network interface
/// forgets the frame that it kept, and a reset memory device that its driver was up,
/// but none of its memory.
pub proof fn devices_keep_what_they_hold<BS: BlockStorage, ND: NetDevice>(
    d0: Device<BS, ND>,
    d1: Device<BS, ND>,
    r: Result<(), DeviceError>,
    reset: bool,
)
    requires
        if reset {
            Device::<BS, ND>::reset_rel(d0, d1, r)
        } else {
            Device::<BS, ND>::flush_rel(d0, d1, r)
        },
    ensures
        d0 is Block ==> d1 is Block && exists|x: Result<(), StorageError>|
            {
                &&& #[trigger] through(x)
                &&& d1->Block_0.disk.calls() == d0->Block_0.disk.calls().push(
                    BlockCall::Flush { result: x },
                )
                &&& r is Ok <==> x is Ok
            },
        !(d0 is Block) ==> r is Ok,
        !(d0 is Block) && !reset ==> d1 == d0,
        d0 is Net && reset ==> d1 is Net && d1->Net_0.pending_tx is None && d1->Net_0.tx@.len() == 0
            && d1->Net_0.backend == d0->Net_0.backend,
        d0 is Mem && reset ==> d1 is Mem && !d1->Mem_0@.ready && d1->Mem_0@.blocks
            == d0->Mem_0@.blocks && d1->Mem_0@.table == d0->Mem_0@.table && d1->Mem_0@.plugged
            == d0->Mem_0@.plugged && d1->Mem_0@.requested == d0->Mem_0@.requested,
{
    if d0 is Block {
        let a = d0->Block_0;
        let b = d1->Block_0;
        let x = choose|x: Result<(), StorageError>|
            #[trigger] through(x) && r == crate::devices::block::lifted(x) && b.disk.calls()
                == a.disk.calls().push(BlockCall::Flush { result: x });
        assert(through(x));
    }
}

} // verus!

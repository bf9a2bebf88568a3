//! Checked access to the split queues of a device.
use crate::bytes::{get_le16, le16};
use crate::error::DeviceError;
use crate::guest::{covers, lemma_covers_tail, Access, Guest, Memory};
use crate::math::through;
use crate::ring::{ahead, head_access, idx_access, succ, unused, used_access, Descriptor, Ring};
use vstd::prelude::*;

verus! {

/// A descriptor chain taken off a queue.
pub struct Chain {
    pub head: u16,
    pub descriptors: Vec<Descriptor>,
}

/// The queues of a device, with what was negotiated and what is signalled.
pub struct Queues {
    pub rings: Vec<Ring>,
    /// Features the driver accepted.
    pub negotiated: u64,
    /// Pending interrupt causes.
    pub interrupt: u32,
}

/// The queues of a device as plain values.
#[verifier::ext_equal]
pub struct QueuesView {
    pub rings: Seq<Ring>,
    pub negotiated: u64,
    pub interrupt: u32,
}

impl QueuesView {
    /// Every ring is well-formed.
    pub open spec fn wf(self) -> bool {
        forall|i: int| 0 <= i < self.rings.len() ==> (#[trigger] self.rings[i]).wf()
    }

    /// The same number of rings, of the same limits, and the same features.
    pub open spec fn kept(self, before: QueuesView) -> bool {
        &&& self.rings.len() == before.rings.len()
        &&& self.negotiated == before.negotiated
        &&& forall|i: int|
            0 <= i < self.rings.len() ==> (#[trigger] self.rings[i]).max_size
                == before.rings[i].max_size
    }

    /// The same queues with another ring number `index`.
    pub open spec fn with_ring(self, index: int, ring: Ring) -> QueuesView {
        QueuesView { rings: self.rings.update(index, ring), ..self }
    }
}

impl View for Queues {
    type V = QueuesView;

    open spec fn view(&self) -> QueuesView {
        QueuesView {
            rings: self.rings@,
            negotiated: self.negotiated,
            interrupt: self.interrupt,
        }
    }
}

/// How many entries of the available ring are pending, once its index is known.
pub open spec fn pending(ring: Ring, idx: Option<u16>) -> Result<u16, DeviceError> {
    match idx {
        None => Err(DeviceError::Queue),
        Some(idx) => {
            let count = ahead(idx, ring.next_avail);
            if count <= ring.size {
                Ok(count)
            } else {
                Err(DeviceError::AvailableRingOverrun { count, size: ring.size })
            }
        },
    }
}

/// Asking how many entries are pending: an invalid queue is refused, otherwise
/// the index is loaded.
pub open spec fn available_rel(
    ring: Ring,
    m0: Memory,
    m1: Memory,
    r: Result<u16, DeviceError>,
) -> bool {
    if !ring.valid(m0.regions) {
        m1 == m0 && r == Err::<u16, DeviceError>(DeviceError::InvalidVirtqueue)
    } else {
        exists|idx: Option<u16>|
            m1 == m0.after(#[trigger] idx_access(ring, idx)) && r == pending(ring, idx)
    }
}

/// Where the descriptor number `index` lies.
pub open spec fn slot(ring: Ring, index: u16) -> u64 {
    (ring.desc_table + 16 * index) as u64
}

/// Following a chain from `index` on, for at most `steps` descriptors, after
/// `done` were seen. The reads that it makes are exactly `log`; `None` means
/// that it would read something else.
pub open spec fn walk(
    ring: Ring,
    regions: Seq<(u64, u64)>,
    index: u16,
    steps: nat,
    done: Seq<Descriptor>,
    log: Seq<Access>,
) -> Option<Result<Seq<Descriptor>, DeviceError>>
    decreases steps,
{
    if steps == 0 {
        if log.len() == 0 {
            Some(Err(DeviceError::CyclicDescriptorChain))
        } else {
            None
        }
    } else if index >= ring.size {
        if log.len() == 0 {
            Some(Err(DeviceError::DescriptorIndexOutOfRange { index, size: ring.size }))
        } else {
            None
        }
    } else if log.len() == 0 {
        None
    } else {
        match log[0] {
            Access::Read { addr, data } => {
                let d = Descriptor::decode(data);
                let rest = log.skip(1);
                if addr != slot(ring, index) || data.len() != 16 {
                    None
                } else if d.indirect() {
                    if rest.len() == 0 {
                        Some(Err(DeviceError::UnnegotiatedIndirectDescriptor))
                    } else {
                        None
                    }
                } else if !d.sound(regions) {
                    if rest.len() == 0 {
                        Some(
                            Err(
                                DeviceError::InvalidDescriptorFlagsRange {
                                    address: d.addr,
                                    length: d.len,
                                    flags: d.flags,
                                },
                            ),
                        )
                    } else {
                        None
                    }
                } else if !d.chained() {
                    if rest.len() == 0 {
                        Some(Ok(done.push(d)))
                    } else {
                        None
                    }
                } else {
                    walk(ring, regions, d.next, (steps - 1) as nat, done.push(d), rest)
                }
            },
            _ => None,
        }
    }
}

/// A chain as plain values: its head and its descriptors.
pub open spec fn chain_view(r: Result<Option<Chain>, DeviceError>) -> Result<
    Option<(u16, Seq<Descriptor>)>,
    DeviceError,
> {
    match r {
        Ok(Some(c)) => Ok(Some((c.head, c.descriptors@))),
        Ok(None) => Ok(None),
        Err(e) => Err(e),
    }
}

/// Taking the head that is next, and following its chain.
pub open spec fn take_rel(
    q0: QueuesView,
    index: int,
    m0: Memory,
    q1: QueuesView,
    m1: Memory,
    r: Result<Option<(u16, Seq<Descriptor>)>, DeviceError>,
    head: Option<Option<u16>>,
) -> bool {
    let ring = q0.rings[index];
    let m = m0.after(head_access(ring, head));
    match head {
        None => q1 == q0 && m1 == m && r == Err::<Option<(u16, Seq<Descriptor>)>, DeviceError>(
            DeviceError::Queue,
        ),
        Some(None) => q1 == q0 && m1 == m && r == Err::<
            Option<(u16, Seq<Descriptor>)>,
            DeviceError,
        >(DeviceError::InvalidAvailableDescriptor),
        Some(Some(h)) => {
            &&& q1 == q0.with_ring(index, Ring { next_avail: succ(ring.next_avail), ..ring })
            &&& exists|log: Seq<Access>| m1 == #[trigger] m.after_all(log) && match walk(
                ring,
                m.regions,
                h,
                ring.size as nat,
                Seq::empty(),
                log,
            ) {
                None => false,
                Some(Ok(d)) => r == Ok::<Option<(u16, Seq<Descriptor>)>, DeviceError>(
                    Some((h, d)),
                ),
                Some(Err(e)) => r == Err::<Option<(u16, Seq<Descriptor>)>, DeviceError>(e),
            }
        },
    }
}

/// Taking the next chain off queue `index`.
pub open spec fn pop_rel(
    q0: QueuesView,
    index: int,
    m0: Memory,
    q1: QueuesView,
    m1: Memory,
    r: Result<Option<(u16, Seq<Descriptor>)>, DeviceError>,
) -> bool {
    exists|m: Memory, n: Result<u16, DeviceError>|
        #[trigger] available_rel(q0.rings[index], m0, m, n) && match n {
            Err(e) => q1 == q0 && m1 == m && r == Err::<
                Option<(u16, Seq<Descriptor>)>,
                DeviceError,
            >(e),
            Ok(count) => if count == 0 {
                q1 == q0 && m1 == m && r == Ok::<Option<(u16, Seq<Descriptor>)>, DeviceError>(None)
            } else {
                exists|head: Option<Option<u16>>|
                    #[trigger] take_rel(q0, index, m, q1, m1, r, head)
            },
        }
}

/// Every descriptor of a popped chain is mapped, carries known flags, and only
/// the last one ends it.
pub open spec fn chain_sound(regions: Seq<(u64, u64)>, desc: Seq<Descriptor>) -> bool {
    &&& desc.len() > 0
    &&& !desc.last().chained()
    &&& forall|i: int|
        0 <= i < desc.len() ==> {
            &&& (#[trigger] desc[i]).sound(regions)
            &&& !desc[i].indirect()
            &&& i < desc.len() - 1 ==> desc[i].chained()
        }
}

/// A chain that was followed to its end is sound, and as long as its reads.
pub proof fn walk_gives_sound_chain(
    ring: Ring,
    regions: Seq<(u64, u64)>,
    index: u16,
    steps: nat,
    done: Seq<Descriptor>,
    log: Seq<Access>,
)
    requires
        forall|i: int|
            0 <= i < done.len() ==> {
                &&& (#[trigger] done[i]).sound(regions)
                &&& !done[i].indirect()
                &&& done[i].chained()
            },
    ensures
        walk(ring, regions, index, steps, done, log) matches Some(Ok(d)) ==> chain_sound(
            regions,
            d,
        ) && d.len() == done.len() + log.len() && d.len() <= done.len() + steps,
    decreases steps,
{
    if walk(ring, regions, index, steps, done, log) matches Some(Ok(d)) {
        if let Access::Read { addr, data } = log[0] {
            let x = Descriptor::decode(data);
            if x.chained() {
                walk_gives_sound_chain(
                    ring,
                    regions,
                    x.next,
                    (steps - 1) as nat,
                    done.push(x),
                    log.skip(1),
                );
            }
        }
    }
}

/// A popped chain is sound and not longer than its queue.
pub proof fn pop_gives_sound_chain(
    q0: QueuesView,
    index: int,
    m0: Memory,
    q1: QueuesView,
    m1: Memory,
    r: Result<Option<(u16, Seq<Descriptor>)>, DeviceError>,
)
    requires
        0 <= index < q0.rings.len(),
        pop_rel(q0, index, m0, q1, m1, r),
    ensures
        r matches Ok(Some(c)) ==> chain_sound(m0.regions, c.1) && c.1.len()
            <= q0.rings[index].size,
        m1.same(m0),
        q1.kept(q0),
        q1.interrupt == q0.interrupt,
{
    let (m, n) = choose|m: Memory, n: Result<u16, DeviceError>|
        #[trigger] available_rel(q0.rings[index], m0, m, n) && match n {
            Err(e) => q1 == q0 && m1 == m && r == Err::<
                Option<(u16, Seq<Descriptor>)>,
                DeviceError,
            >(e),
            Ok(count) => if count == 0 {
                q1 == q0 && m1 == m && r == Ok::<Option<(u16, Seq<Descriptor>)>, DeviceError>(None)
            } else {
                exists|head: Option<Option<u16>>|
                    #[trigger] take_rel(q0, index, m, q1, m1, r, head)
            },
        };
    assert(m.same(m0));
    if let Ok(count) = n {
        if count != 0 {
            let head = choose|head: Option<Option<u16>>|
                #[trigger] take_rel(q0, index, m, q1, m1, r, head);
            if let Some(Some(h)) = head {
                let ring = q0.rings[index];
                let m2 = m.after(head_access(ring, head));
                let log = choose|log: Seq<Access>|
                    m1 == #[trigger] m2.after_all(log) && match walk(
                        ring,
                        m2.regions,
                        h,
                        ring.size as nat,
                        Seq::empty(),
                        log,
                    ) {
                        None => false,
                        Some(Ok(d)) => r == Ok::<Option<(u16, Seq<Descriptor>)>, DeviceError>(
                            Some((h, d)),
                        ),
                        Some(Err(e)) => r == Err::<Option<(u16, Seq<Descriptor>)>, DeviceError>(e),
                    };
                walk_gives_sound_chain(
                    ring,
                    m2.regions,
                    h,
                    ring.size as nat,
                    Seq::empty(),
                    log,
                );
            }
        }
    }
}

/// Completing a chain: the used element is stored and an interrupt raised, or
/// the queue is refused, which may leave an element that was cut short.
pub open spec fn complete_rel(
    q0: QueuesView,
    index: int,
    m0: Memory,
    head: u16,
    len: u32,
    q1: QueuesView,
    m1: Memory,
    r: Result<(), DeviceError>,
) -> bool {
    let ring = q0.rings[index];
    let next = Ring { next_used: succ(ring.next_used), ..ring };
    if !ring.can_use(m0.regions, head) {
        q1 == q0 && m1 == unused(ring, m0, head, len) && r == Err::<(), DeviceError>(
            DeviceError::Queue,
        )
    } else if r is Ok {
        &&& q1 == (QueuesView { interrupt: q0.interrupt | 1, ..q0.with_ring(index, next) })
        &&& m1 == m0.after(used_access(ring, head, len, true))
    } else {
        &&& r == Err::<(), DeviceError>(DeviceError::Queue)
        &&& q1 == q0.with_ring(index, next)
        &&& m1 == m0.after(used_access(ring, head, len, false))
    }
}

impl Queues {
    /// How many chains the driver has made available on queue `index`.
    pub fn available(&self, index: usize, mem: &mut Guest) -> (r: Result<u16, DeviceError>)
        requires
            self@.wf(),
            index < self.rings@.len(),
        ensures
            available_rel(self.rings@[index as int], old(mem)@, final(mem)@, r),
            final(mem)@.same(old(mem)@),
    {
        let q: &Ring = &self.rings[index];
        assert(self@.rings[index as int].wf());
        if !q.is_valid(mem) {
            return Err(DeviceError::InvalidVirtqueue);
        }
        let idx: Option<u16> = q.avail_idx(mem);
        let ghost access = idx_access(*q, idx);
        match idx {
            None => Err(DeviceError::Queue),
            Some(idx) => {
                let count: u16 = idx.wrapping_sub(q.next_avail);
                if count > q.size {
                    return Err(DeviceError::AvailableRingOverrun { count, size: q.size });
                }
                Ok(count)
            },
        }
    }

    /// Takes the next chain off queue `index`, if there is one. The chain is
    /// followed by its raw links, so an indirect table is never expanded; a
    /// cycle ends after as many descriptors as the queue has.
    pub fn pop(&mut self, index: usize, mem: &mut Guest) -> (r: Result<
        Option<Chain>,
        DeviceError,
    >)
        requires
            old(self)@.wf(),
            index < old(self).rings@.len(),
        ensures
            final(self)@.wf(),
            pop_rel(old(self)@, index as int, old(mem)@, final(self)@, final(mem)@, chain_view(r)),
            r matches Ok(Some(c)) ==> chain_sound(final(mem)@.regions, c.descriptors@)
                && c.descriptors@.len() <= old(self).rings@[index as int].size,
            final(mem)@.same(old(mem)@),
            final(self)@.kept(old(self)@),
            final(self).interrupt == old(self).interrupt,
    {
        let ghost q0 = self@;
        let ghost m0 = mem@;
        let n: Result<u16, DeviceError> = self.available(index, mem);
        let ghost m = mem@;
        assert(available_rel(q0.rings[index as int], m0, m, n));
        let count: u16 = match n {
            Ok(count) => count,
            Err(e) => {
                return Err(e);
            },
        };
        if count == 0 {
            return Ok(None);
        }
        let mut ring: Ring = self.rings[index];
        let ghost ring0 = ring;
        assert(q0.rings[index as int].wf());
        let head: Option<Option<u16>> = ring.next_head(mem);
        let ghost m2 = mem@;
        self.rings.set(index, ring);
        assert(self@.wf()) by {
            assert forall|i: int| 0 <= i < self@.rings.len() implies (
            #[trigger] self@.rings[i]).wf() by {
                if i != index {
                    assert(q0.rings[i].wf());
                }
            }
        }
        let h: u16 = match head {
            None => {
                let r: Result<Option<Chain>, DeviceError> = Err(DeviceError::Queue);
                assert(self@ =~= q0);
                assert(take_rel(q0, index as int, m, self@, mem@, chain_view(r), head));
                return r;
            },
            Some(None) => {
                let r: Result<Option<Chain>, DeviceError> = Err(
                    DeviceError::InvalidAvailableDescriptor,
                );
                assert(self@ =~= q0);
                assert(take_rel(q0, index as int, m, self@, mem@, chain_view(r), head));
                return r;
            },
            Some(Some(h)) => h,
        };
        let ghost q1 = self@;
        let r: Result<Vec<Descriptor>, DeviceError> = follow(&ring, Ghost(ring0), h, mem);
        let out: Result<Option<Chain>, DeviceError> = match r {
            Ok(descriptors) => Ok(Some(Chain { head: h, descriptors })),
            Err(e) => Err(e),
        };
        proof {
            let log = choose|log: Seq<Access>|
                #![trigger m2.after_all(log)]
                mem@ == m2.after_all(log) && walked(ring0, m2.regions, h, log, r);
            assert(mem@ == m2.after_all(log));
            assert(q1 =~= q0.with_ring(
                index as int,
                Ring { next_avail: succ(ring0.next_avail), ..ring0 },
            ));
            assert(take_rel(q0, index as int, m, self@, mem@, chain_view(out), head));
            assert(pop_rel(q0, index as int, m0, self@, mem@, chain_view(out)));
            pop_gives_sound_chain(q0, index as int, m0, self@, mem@, chain_view(out));
        }
        out
    }

    /// Completes a chain of queue `index`, of which `len` bytes were written.
    /// Suppression is advisory, so every completion raises the interrupt.
    pub fn complete(&mut self, index: usize, mem: &mut Guest, head: u16, len: u32) -> (r: Result<
        (),
        DeviceError,
    >)
        requires
            old(self)@.wf(),
            index < old(self).rings@.len(),
        ensures
            final(self)@.wf(),
            complete_rel(
                old(self)@,
                index as int,
                old(mem)@,
                head,
                len,
                final(self)@,
                final(mem)@,
                r,
            ),
            final(mem)@.same(old(mem)@),
            final(self)@.kept(old(self)@),
    {
        let ghost q0 = self@;
        let mut ring: Ring = self.rings[index];
        assert(q0.rings[index as int].wf());
        let ok: bool = ring.add_used(mem, head, len);
        self.rings.set(index, ring);
        assert(self@.wf()) by {
            assert forall|i: int| 0 <= i < self@.rings.len() implies (
            #[trigger] self@.rings[i]).wf() by {
                if i != index {
                    assert(q0.rings[i].wf());
                }
            }
        }
        assert(self@ =~= q0.with_ring(index as int, ring));
        assert(q0.with_ring(index as int, q0.rings[index as int]) =~= q0);
        if !ok {
            return Err(DeviceError::Queue);
        }
        self.interrupt = self.interrupt | 1;
        Ok(())
    }
}

/// Following the chain of `head` made the reads `log` and gave `r`.
pub open spec fn walked(
    ring: Ring,
    regions: Seq<(u64, u64)>,
    head: u16,
    log: Seq<Access>,
    r: Result<Vec<Descriptor>, DeviceError>,
) -> bool {
    match walk(ring, regions, head, ring.size as nat, Seq::empty(), log) {
        None => false,
        Some(Ok(d)) => r matches Ok(v) && v@ == d,
        Some(Err(e)) => r == Err::<Vec<Descriptor>, DeviceError>(e),
    }
}

proof fn lemma_slot_covered(ring: Ring, regions: Seq<(u64, u64)>, index: u16)
    requires
        crate::guest::ordered(regions),
        covers(regions, ring.desc_table as int, 16 * ring.size),
        index < ring.size,
    ensures
        slot(ring, index) == ring.desc_table + 16 * index,
        covers(regions, slot(ring, index) as int, 16),
{
    lemma_covers_tail(regions, ring.desc_table as int, 16 * ring.size, 16 * index);
    lemma_covers_tail(
        regions,
        ring.desc_table + 16 * index,
        16 * ring.size - 16 * index,
        16,
    );
    let a = ring.desc_table + 16 * index;
    assert(crate::guest::mapped(regions, a));
    crate::guest::lemma_room(regions, a);
}

/// Reads the chain of `head` off a valid queue.
fn follow(ring: &Ring, before: Ghost<Ring>, head: u16, mem: &mut Guest) -> (r: Result<
    Vec<Descriptor>,
    DeviceError,
>)
    requires
        before@.valid(old(mem)@.regions),
        *ring == (Ring { next_avail: ring.next_avail, ..before@ }),
    ensures
        exists|log: Seq<Access>|
            #![trigger old(mem)@.after_all(log)]
            final(mem)@ == old(mem)@.after_all(log) && walked(
                before@,
                old(mem)@.regions,
                head,
                log,
                r,
            ),
{
    let ghost ring0 = before@;
    let ghost start = mem@;
    let ghost regions = mem@.regions;
    mem.regions_are_ordered();
    let mut index: u16 = head;
    let mut descriptors: Vec<Descriptor> = Vec::new();
    let mut steps: u16 = ring.size;
    let ghost mut log: Seq<Access> = Seq::empty();
    assert(start.after_all(log).accesses =~= start.accesses);
    assert(forall|t: Seq<Access>| #[trigger] (log + t) =~= t);
    assert(descriptors@ =~= Seq::empty());
    while steps > 0
        invariant
            steps <= ring.size,
            start == old(mem)@,
            ring0 == before@,
            regions == start.regions,
            crate::guest::ordered(regions),
            ring0.valid(regions),
            *ring == (Ring { next_avail: ring.next_avail, ..ring0 }),
            mem@ == start.after_all(log),
            forall|t: Seq<Access>|
                walk(ring0, regions, head, ring0.size as nat, Seq::empty(), #[trigger] (log + t))
                    == walk(ring0, regions, index, steps as nat, descriptors@, t),
        decreases steps,
    {
        if index >= ring.size {
            assert(log + Seq::<Access>::empty() =~= log);
            let r: Result<Vec<Descriptor>, DeviceError> = Err(
                DeviceError::DescriptorIndexOutOfRange { index, size: ring.size },
            );
            assert(walked(ring0, regions, head, log, r));
            return r;
        }
        proof {
            lemma_slot_covered(ring0, regions, index);
        }
        let bytes: Vec<u8> = mem.read(ring.desc_table + 16 * index as u64, 16);
        let d: Descriptor = Descriptor::parse(bytes.as_slice());
        let ghost access = Access::Read { addr: slot(ring0, index), data: bytes@ };
        let ghost one = seq![access];
        let ghost old_log = log;
        proof {
            log = log.push(access);
            assert(mem@.accesses =~= start.after_all(log).accesses);
            assert(log =~= old_log + one);
            assert(one.skip(1) =~= Seq::empty());
        }
        if d.refers_to_indirect_table() {
            let r: Result<Vec<Descriptor>, DeviceError> = Err(
                DeviceError::UnnegotiatedIndirectDescriptor,
            );
            assert(walked(ring0, regions, head, log, r));
            return r;
        }
        if !d.is_sound(mem) {
            let r: Result<Vec<Descriptor>, DeviceError> = Err(
                DeviceError::InvalidDescriptorFlagsRange {
                    address: d.addr,
                    length: d.len,
                    flags: d.flags,
                },
            );
            assert(walked(ring0, regions, head, log, r));
            return r;
        }
        let ghost seen = descriptors@;
        descriptors.push(d);
        if !d.has_next() {
            let r: Result<Vec<Descriptor>, DeviceError> = Ok(descriptors);
            assert(walked(ring0, regions, head, log, r));
            return r;
        }
        proof {
            assert forall|t: Seq<Access>|
                walk(ring0, regions, head, ring0.size as nat, Seq::empty(), #[trigger] (log + t))
                    == walk(ring0, regions, d.next, (steps - 1) as nat, descriptors@, t) by {
                assert(log + t =~= old_log + (one + t));
                assert((one + t).skip(1) =~= t);
                assert((one + t)[0] == access);
            }
        }
        index = d.next;
        steps = steps - 1;
    }
    assert(log + Seq::<Access>::empty() =~= log);
    let r: Result<Vec<Descriptor>, DeviceError> = Err(DeviceError::CyclicDescriptorChain);
    assert(walked(ring0, regions, head, log, r));
    r
}

/// Memory that must stay mapped, as first address and length.
pub type Pins = Vec<(u64, u64)>;

/// Pins as plain values.
pub open spec fn pins_view(r: Result<Pins, DeviceError>) -> Result<Seq<(u64, u64)>, DeviceError> {
    match r {
        Ok(v) => Ok(v@),
        Err(e) => Err(e),
    }
}

/// Pinning the buffers of a pending chain from `index` on, after `pins`. The
/// reads that it makes are exactly `log`.
pub open spec fn chain_pins(
    ring: Ring,
    regions: Seq<(u64, u64)>,
    index: u16,
    steps: nat,
    pins: Seq<(u64, u64)>,
    log: Seq<Access>,
) -> Option<Result<Seq<(u64, u64)>, DeviceError>>
    decreases steps,
{
    if steps == 0 {
        if log.len() == 0 {
            Some(Err(DeviceError::CyclicPendingDescriptorChain))
        } else {
            None
        }
    } else if index >= ring.size {
        if log.len() == 0 {
            Some(Err(DeviceError::DescriptorIndexOutOfRange { index, size: ring.size }))
        } else {
            None
        }
    } else if log.len() == 0 {
        None
    } else {
        match log[0] {
            Access::Read { addr, data } => {
                let d = Descriptor::decode(data);
                let rest = log.skip(1);
                let more = if d.len != 0 {
                    pins.push((d.addr, d.len as u64))
                } else {
                    pins
                };
                if addr != slot(ring, index) || data.len() != 16 {
                    None
                } else if !d.sound(regions) {
                    if rest.len() == 0 {
                        Some(
                            Err(
                                DeviceError::InvalidPendingDescriptor {
                                    address: d.addr,
                                    length: d.len,
                                    flags: d.flags,
                                },
                            ),
                        )
                    } else {
                        None
                    }
                } else if !d.chained() {
                    if rest.len() == 0 {
                        Some(Ok(more))
                    } else {
                        None
                    }
                } else {
                    chain_pins(ring, regions, d.next, (steps - 1) as nat, more, rest)
                }
            },
            _ => None,
        }
    }
}

/// Where the entry of the available ring lies that is number `i` of the pending
/// ones.
pub open spec fn entry(ring: Ring, i: int) -> int {
    ring.avail_ring + 4 + 2 * (((ring.next_avail + i) % 0x1_0000) % (ring.size as int))
}

/// Pinning the chain of the pending entry number `i`.
pub open spec fn entry_rel(
    ring: Ring,
    i: int,
    m0: Memory,
    m1: Memory,
    pins: Seq<(u64, u64)>,
    r: Result<Seq<(u64, u64)>, DeviceError>,
) -> bool {
    exists|data: Seq<u8>, log: Seq<Access>|
        {
            &&& m1 == #[trigger] entry_read(ring, i, m0, data, log)
            &&& data.len() == 2
            &&& chain_pins(
                ring,
                m0.regions,
                le16(data, 0) as u16,
                ring.size as nat,
                pins,
                log,
            ) == Some(r)
        }
}

/// Memory after the entry was read, and then the descriptors of its chain.
pub open spec fn entry_read(
    ring: Ring,
    i: int,
    m0: Memory,
    data: Seq<u8>,
    log: Seq<Access>,
) -> Memory {
    m0.after(Access::Read { addr: entry(ring, i) as u64, data }).after_all(log)
}

/// Pinning the chains of the first `n` pending entries.
pub open spec fn entries_rel(
    ring: Ring,
    n: nat,
    m0: Memory,
    m1: Memory,
    pins: Seq<(u64, u64)>,
    r: Result<Seq<(u64, u64)>, DeviceError>,
) -> bool
    decreases n,
{
    if n == 0 {
        m1 == m0 && r == Ok::<Seq<(u64, u64)>, DeviceError>(pins)
    } else {
        exists|m: Memory, e: Result<Seq<(u64, u64)>, DeviceError>|
            #[trigger] through((m, e)) && entries_rel(ring, (n - 1) as nat, m0, m, pins, e) && match e {
                Err(_) => m1 == m && r == e,
                Ok(p) => entry_rel(ring, n - 1, m, m1, p, r),
            }
    }
}

/// The tables of a queue.
pub open spec fn table_pins(ring: Ring) -> Seq<(u64, u64)> {
    seq![
        (ring.desc_table, (16 * ring.size) as u64),
        (ring.avail_ring, (6 + 2 * ring.size) as u64),
        (ring.used_ring, (6 + 8 * ring.size) as u64),
    ]
}

/// Pinning the tables and the pending chains of one queue, after `pins`.
pub open spec fn ring_rel(
    ring: Ring,
    m0: Memory,
    m1: Memory,
    pins: Seq<(u64, u64)>,
    r: Result<Seq<(u64, u64)>, DeviceError>,
) -> bool {
    if !ring.ready {
        m1 == m0 && r == Ok::<Seq<(u64, u64)>, DeviceError>(pins)
    } else if !ring.valid(m0.regions) {
        m1 == m0 && r == Err::<Seq<(u64, u64)>, DeviceError>(DeviceError::InvalidLiveQueue)
    } else {
        exists|m: Memory, n: Result<u16, DeviceError>|
            #[trigger] available_rel(ring, m0, m, n) && match n {
                Err(e) => m1 == m && r == Err::<Seq<(u64, u64)>, DeviceError>(e),
                Ok(count) => entries_rel(ring, count as nat, m, m1, pins + table_pins(ring), r),
            }
    }
}

/// Pinning the first `n` of `rings`.
pub open spec fn pinned_rel(
    rings: Seq<Ring>,
    n: nat,
    m0: Memory,
    m1: Memory,
    r: Result<Seq<(u64, u64)>, DeviceError>,
) -> bool
    decreases n,
{
    if n == 0 {
        m1 == m0 && r == Ok::<Seq<(u64, u64)>, DeviceError>(Seq::empty())
    } else {
        exists|m: Memory, e: Result<Seq<(u64, u64)>, DeviceError>|
            #[trigger] through((m, e)) && pinned_rel(rings, (n - 1) as nat, m0, m, e) && match e {
                Err(_) => m1 == m && r == e,
                Ok(p) => ring_rel(rings[n - 1], m, m1, p, r),
            }
    }
}

fn pin_chain(ring: &Ring, head: u16, given: Pins, mem: &mut Guest) -> (r: Result<Pins, DeviceError>)
    requires
        ring.valid(old(mem)@.regions),
    ensures
        exists|log: Seq<Access>|
            #![trigger old(mem)@.after_all(log)]
            final(mem)@ == old(mem)@.after_all(log) && chain_pins(
                *ring,
                old(mem)@.regions,
                head,
                ring.size as nat,
                given@,
                log,
            ) == Some(pins_view(r)),
{
    let ghost start = mem@;
    let ghost regions = mem@.regions;
    let ghost pins0 = given@;
    mem.regions_are_ordered();
    let mut pins: Pins = given;
    let mut index: u16 = head;
    let mut steps: u16 = ring.size;
    let ghost mut log: Seq<Access> = Seq::empty();
    assert(start.after_all(log).accesses =~= start.accesses);
    assert(forall|t: Seq<Access>| #[trigger] (log + t) =~= t);
    while steps > 0
        invariant
            steps <= ring.size,
            start == old(mem)@,
            pins0 == given@,
            regions == start.regions,
            crate::guest::ordered(regions),
            ring.valid(regions),
            mem@ == start.after_all(log),
            forall|t: Seq<Access>|
                chain_pins(*ring, regions, head, ring.size as nat, pins0, #[trigger] (log + t))
                    == chain_pins(*ring, regions, index, steps as nat, pins@, t),
        decreases steps,
    {
        if index >= ring.size {
            assert(log + Seq::<Access>::empty() =~= log);
            return Err(DeviceError::DescriptorIndexOutOfRange { index, size: ring.size });
        }
        proof {
            lemma_slot_covered(*ring, regions, index);
        }
        let bytes: Vec<u8> = mem.read(ring.desc_table + 16 * index as u64, 16);
        let d: Descriptor = Descriptor::parse(bytes.as_slice());
        let ghost access = Access::Read { addr: slot(*ring, index), data: bytes@ };
        let ghost one = seq![access];
        let ghost old_log = log;
        proof {
            log = log.push(access);
            assert(mem@.accesses =~= start.after_all(log).accesses);
            assert(log =~= old_log + one);
            assert(one.skip(1) =~= Seq::empty());
        }
        if !d.is_sound(mem) {
            return Err(
                DeviceError::InvalidPendingDescriptor {
                    address: d.addr,
                    length: d.len,
                    flags: d.flags,
                },
            );
        }
        if d.len != 0 {
            pins.push((d.addr, d.len as u64));
        }
        if !d.has_next() {
            return Ok(pins);
        }
        proof {
            assert forall|t: Seq<Access>|
                chain_pins(*ring, regions, head, ring.size as nat, pins0, #[trigger] (log + t))
                    == chain_pins(*ring, regions, d.next, (steps - 1) as nat, pins@, t) by {
                assert(log + t =~= old_log + (one + t));
                assert((one + t).skip(1) =~= t);
                assert((one + t)[0] == access);
            }
        }
        index = d.next;
        steps = steps - 1;
    }
    assert(log + Seq::<Access>::empty() =~= log);
    Err(DeviceError::CyclicPendingDescriptorChain)
}

fn pin_ring(ring: &Ring, given: Pins, mem: &mut Guest) -> (r: Result<Pins, DeviceError>)
    requires
        ring.wf(),
    ensures
        ring_rel(*ring, old(mem)@, final(mem)@, given@, pins_view(r)),
        final(mem)@.same(old(mem)@),
{
    if !ring.ready {
        return Ok(given);
    }
    if !ring.is_valid(mem) {
        return Err(DeviceError::InvalidLiveQueue);
    }
    let ghost start = mem@;
    let ghost pins0 = given@;
    mem.regions_are_ordered();
    let mut pins: Pins = given;
    pins.push((ring.desc_table, 16 * ring.size as u64));
    pins.push((ring.avail_ring, 6 + 2 * ring.size as u64));
    pins.push((ring.used_ring, 6 + 8 * ring.size as u64));
    assert(pins@ =~= pins0 + table_pins(*ring));
    let idx: Option<u16> = ring.avail_idx(mem);
    let ghost access = idx_access(*ring, idx);
    let ghost m = mem@;
    let count: u16 = match idx {
        None => {
            let n: Result<u16, DeviceError> = Err(DeviceError::Queue);
            assert(available_rel(*ring, start, m, n));
            return Err(DeviceError::Queue);
        },
        Some(idx) => idx.wrapping_sub(ring.next_avail),
    };
    if count > ring.size {
        let n: Result<u16, DeviceError> = Err(
            DeviceError::AvailableRingOverrun { count, size: ring.size },
        );
        assert(available_rel(*ring, start, m, n));
        return Err(DeviceError::AvailableRingOverrun { count, size: ring.size });
    }
    let ghost n: Result<u16, DeviceError> = Ok(count);
    assert(available_rel(*ring, start, m, n));
    let ghost tables = pins@;
    let mut i: u16 = 0;
    while i < count
        invariant
            i <= count <= ring.size,
            ring.wf(),
            start == old(mem)@,
            pins0 == given@,
            start.same(m),
            mem@.same(m),
            crate::guest::ordered(m.regions),
            ring.valid(m.regions),
            ring.ready,
            tables == pins0 + table_pins(*ring),
            n == Ok::<u16, DeviceError>(count),
            available_rel(*ring, start, m, n),
            entries_rel(
                *ring,
                i as nat,
                m,
                mem@,
                tables,
                Ok::<Seq<(u64, u64)>, DeviceError>(pins@),
            ),
        decreases count - i,
    {
        let at: u16 = ring.next_avail.wrapping_add(i) % ring.size;
        let ghost m2 = mem@;
        let ghost p2 = pins@;
        proof {
            let a = ring.avail_ring + 4 + 2 * at;
            assert(a == entry(*ring, i as int));
            lemma_covers_tail(
                m.regions,
                ring.avail_ring as int,
                6 + 2 * ring.size,
                4 + 2 * at,
            );
            lemma_covers_tail(m.regions, a, 6 + 2 * ring.size - 4 - 2 * at, 2);
            assert(crate::guest::mapped(m.regions, a));
            crate::guest::lemma_room(m.regions, a);
        }
        let bytes: Vec<u8> = mem.read(ring.avail_ring + 4 + 2 * at as u64, 2);
        let head: u16 = get_le16(bytes.as_slice(), 0);
        let ghost m3 = mem@;
        let e: Result<Pins, DeviceError> = pin_chain(ring, head, pins, mem);
        proof {
            let log = choose|log: Seq<Access>|
                #![trigger m3.after_all(log)]
                mem@ == m3.after_all(log) && chain_pins(
                    *ring,
                    m3.regions,
                    head,
                    ring.size as nat,
                    p2,
                    log,
                ) == Some(pins_view(e));
            assert(mem@ == entry_read(*ring, i as int, m2, bytes@, log));
            assert(entry_rel(*ring, i as int, m2, mem@, p2, pins_view(e)));
            assert(through((m2, Ok::<Seq<(u64, u64)>, DeviceError>(p2))));
            assert(entries_rel(*ring, (i + 1) as nat, m, mem@, tables, pins_view(e)));
        }
        pins = match e {
            Ok(p) => p,
            Err(e) => {
                proof {
                    lemma_entries_error(
                        *ring,
                        (i + 1) as nat,
                        count as nat,
                        m,
                        mem@,
                        tables,
                        e,
                    );
                }
                return Err(e);
            },
        };
        i = i + 1;
    }
    Ok(pins)
}

proof fn lemma_entries_error(
    ring: Ring,
    k: nat,
    n: nat,
    m0: Memory,
    m1: Memory,
    pins: Seq<(u64, u64)>,
    e: DeviceError,
)
    requires
        k <= n,
        entries_rel(ring, k, m0, m1, pins, Err::<Seq<(u64, u64)>, DeviceError>(e)),
    ensures
        entries_rel(ring, n, m0, m1, pins, Err::<Seq<(u64, u64)>, DeviceError>(e)),
    decreases n - k,
{
    if k < n {
        let r = Err::<Seq<(u64, u64)>, DeviceError>(e);
        assert(through((m1, r)));
        assert(entries_rel(ring, k + 1, m0, m1, pins, r));
        lemma_entries_error(ring, k + 1, n, m0, m1, pins, e);
    }
}

proof fn lemma_pinned_error(
    rings: Seq<Ring>,
    k: nat,
    n: nat,
    m0: Memory,
    m1: Memory,
    e: DeviceError,
)
    requires
        k <= n,
        pinned_rel(rings, k, m0, m1, Err::<Seq<(u64, u64)>, DeviceError>(e)),
    ensures
        pinned_rel(rings, n, m0, m1, Err::<Seq<(u64, u64)>, DeviceError>(e)),
    decreases n - k,
{
    if k < n {
        let r = Err::<Seq<(u64, u64)>, DeviceError>(e);
        assert(through((m1, r)));
        assert(pinned_rel(rings, k + 1, m0, m1, r));
        lemma_pinned_error(rings, k + 1, n, m0, m1, e);
    }
}

impl Queues {
    /// All memory that the ready queues refer to: their tables and the buffers
    /// of every chain the driver has made available.
    pub fn pinned(&self, mem: &mut Guest) -> (r: Result<Pins, DeviceError>)
        requires
            self@.wf(),
        ensures
            pinned_rel(
                self.rings@,
                self.rings@.len(),
                old(mem)@,
                final(mem)@,
                pins_view(r),
            ),
            final(mem)@.same(old(mem)@),
    {
        let ghost start = mem@;
        let mut pins: Pins = Vec::new();
        let mut i: usize = 0;
        assert(pins@ =~= Seq::empty());
        while i < self.rings.len()
            invariant
                i <= self.rings@.len(),
                self@.wf(),
                start == old(mem)@,
                mem@.same(start),
                pinned_rel(
                    self.rings@,
                    i as nat,
                    start,
                    mem@,
                    Ok::<Seq<(u64, u64)>, DeviceError>(pins@),
                ),
            decreases self.rings@.len() - i,
        {
            let ghost m = mem@;
            let ghost p = pins@;
            assert(self@.rings[i as int].wf());
            let e: Result<Pins, DeviceError> = pin_ring(&self.rings[i], pins, mem);
            proof {
                assert(through((m, Ok::<Seq<(u64, u64)>, DeviceError>(p))));
                assert(pinned_rel(self.rings@, (i + 1) as nat, start, mem@, pins_view(e)));
            }
            pins = match e {
                Ok(p) => p,
                Err(e) => {
                    proof {
                        lemma_pinned_error(
                            self.rings@,
                            (i + 1) as nat,
                            self.rings@.len(),
                            start,
                            mem@,
                            e,
                        );
                    }
                    return Err(e);
                },
            };
            i = i + 1;
        }
        Ok(pins)
    }
}

} // verus!

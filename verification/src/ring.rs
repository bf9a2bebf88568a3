//! Split virtqueues: the rings of a queue as plain values, and their
//! descriptors.
use crate::bytes::{get_le16, get_le32, get_le64, le16, le32, le64};
use crate::guest::{covers, Access, Guest, Memory};
use std::sync::atomic::Ordering;
use virtio_queue::{Error as QueueFault, Queue, QueueOwnedT, QueueState, QueueT};
use vstd::prelude::*;

verus! {

/// `virtio_queue::Error`, opaque.
#[verifier::external_type_specification]
#[verifier::external_body]
pub struct ExQueueFault(QueueFault);

/// The state of one split virtqueue.
#[derive(Clone, Copy, Debug, PartialEq, Eq, Structural)]
pub struct Ring {
    /// Largest number of elements.
    pub max_size: u16,
    /// Next entry of the available ring.
    pub next_avail: u16,
    /// Next entry of the used ring.
    pub next_used: u16,
    /// Number of elements the driver selected.
    pub size: u16,
    /// Whether the driver has finished its configuration.
    pub ready: bool,
    pub desc_table: u64,
    pub avail_ring: u64,
    pub used_ring: u64,
}

/// Whether `n` has exactly one bit set.
pub open spec fn one_bit(n: u16) -> bool {
    n != 0 && n & ((n - 1) as u16) == 0
}

/// `a` with its lower half replaced by `low`.
pub open spec fn with_low(a: u64, low: u32) -> int {
    a - a % 0x1_0000_0000 + low
}

/// `a` with its upper half replaced by `high`.
pub open spec fn with_high(a: u64, high: u32) -> int {
    high * 0x1_0000_0000 + a % 0x1_0000_0000
}

/// `a` moved to `new` if that is a multiple of `align`.
pub open spec fn moved(a: u64, new: int, align: int) -> u64 {
    if new % align == 0 {
        new as u64
    } else {
        a
    }
}

/// How far `x` is ahead of `y`, as 16-bit indices count.
pub open spec fn ahead(x: u16, y: u16) -> u16 {
    ((x - y) % 0x1_0000) as u16
}

/// The index after `x`.
pub open spec fn succ(x: u16) -> u16 {
    ((x + 1) % 0x1_0000) as u16
}

impl Ring {
    /// Sizes are powers of two within the limit, tables are aligned.
    pub open spec fn wf(&self) -> bool {
        &&& one_bit(self.max_size)
        &&& self.max_size <= 32768
        &&& one_bit(self.size)
        &&& self.size <= self.max_size
        &&& self.desc_table % 16 == 0
        &&& self.avail_ring % 2 == 0
        &&& self.used_ring % 4 == 0
    }

    /// The queue is ready and all of its tables are mapped.
    pub open spec fn valid(&self, regions: Seq<(u64, u64)>) -> bool {
        &&& self.ready
        &&& covers(regions, self.desc_table as int, 16 * self.size)
        &&& covers(regions, self.avail_ring as int, 6 + 2 * self.size)
        &&& covers(regions, self.used_ring as int, 6 + 8 * self.size)
    }

    /// A queue as it is before any configuration.
    pub open spec fn fresh(max_size: u16) -> Ring {
        Ring {
            max_size,
            next_avail: 0,
            next_used: 0,
            size: max_size,
            ready: false,
            desc_table: 0,
            avail_ring: 0,
            used_ring: 0,
        }
    }

    pub fn new(max_size: u16) -> (r: Ring)
        requires
            one_bit(max_size),
            max_size <= 32768,
        ensures
            r == Ring::fresh(max_size),
            r.wf(),
    {
        Ring {
            max_size,
            next_avail: 0,
            next_used: 0,
            size: max_size,
            ready: false,
            desc_table: 0,
            avail_ring: 0,
            used_ring: 0,
        }
    }

    pub fn reset(&mut self)
        requires
            old(self).wf(),
        ensures
            *final(self) == Ring::fresh(old(self).max_size),
            final(self).wf(),
    {
        *self = Ring::new(self.max_size);
    }

    /// Selects the number of elements. Refused unless it is a power of two and
    /// within the limit of the queue.
    pub fn try_set_size(&mut self, size: u16) -> (r: bool)
        requires
            old(self).wf(),
        ensures
            final(self).wf(),
            r == (size <= old(self).max_size && one_bit(size)),
            *final(self) == if r {
                Ring { size, ..*old(self) }
            } else {
                *old(self)
            },
    {
        if size > self.max_size || size == 0 || size & (size - 1) != 0 {
            return false;
        }
        self.size = size;
        true
    }

    pub fn set_ready(&mut self, ready: bool)
        requires
            old(self).wf(),
        ensures
            final(self).wf(),
            *final(self) == (Ring { ready, ..*old(self) }),
    {
        self.ready = ready;
    }

    /// Replaces half of the descriptor table's address; an address that is not
    /// a multiple of 16 is ignored.
    pub fn set_desc_table_address(&mut self, value: u32, high: bool)
        requires
            old(self).wf(),
        ensures
            final(self).wf(),
            *final(self) == (Ring {
                desc_table: moved(
                    old(self).desc_table,
                    if high {
                        with_high(old(self).desc_table, value)
                    } else {
                        with_low(old(self).desc_table, value)
                    },
                    16,
                ),
                ..*old(self)
            }),
    {
        let new: u64 = replace_half(self.desc_table, value, high);
        if new % 16 == 0 {
            self.desc_table = new;
        }
    }

    /// Replaces half of the available ring's address; an odd address is
    /// ignored.
    pub fn set_avail_ring_address(&mut self, value: u32, high: bool)
        requires
            old(self).wf(),
        ensures
            final(self).wf(),
            *final(self) == (Ring {
                avail_ring: moved(
                    old(self).avail_ring,
                    if high {
                        with_high(old(self).avail_ring, value)
                    } else {
                        with_low(old(self).avail_ring, value)
                    },
                    2,
                ),
                ..*old(self)
            }),
    {
        let new: u64 = replace_half(self.avail_ring, value, high);
        if new % 2 == 0 {
            self.avail_ring = new;
        }
    }

    /// Replaces half of the used ring's address; an address that is not a
    /// multiple of 4 is ignored.
    pub fn set_used_ring_address(&mut self, value: u32, high: bool)
        requires
            old(self).wf(),
        ensures
            final(self).wf(),
            *final(self) == (Ring {
                used_ring: moved(
                    old(self).used_ring,
                    if high {
                        with_high(old(self).used_ring, value)
                    } else {
                        with_low(old(self).used_ring, value)
                    },
                    4,
                ),
                ..*old(self)
            }),
    {
        let new: u64 = replace_half(self.used_ring, value, high);
        if new % 4 == 0 {
            self.used_ring = new;
        }
    }

    /// Whether the queue is ready and all of its tables are mapped.
    pub fn is_valid(&self, mem: &Guest) -> (r: bool)
        requires
            self.wf(),
        ensures
            r == self.valid(mem@.regions),
    {
        queue_is_valid(self, mem)
    }

    /// Loads the index of the available ring.
    pub fn avail_idx(&self, mem: &mut Guest) -> (r: Option<u16>)
        requires
            self.wf(),
        ensures
            final(mem)@ == old(mem)@.after(idx_access(*self, r)),
    {
        match queue_avail_idx(self, mem) {
            Ok(value) => Some(value),
            Err(_) => None,
        }
    }

    /// Takes the next head off the available ring.
    pub fn next_head(&mut self, mem: &mut Guest) -> (r: Option<Option<u16>>)
        requires
            old(self).wf(),
        ensures
            final(self).wf(),
            final(mem)@ == old(mem)@.after(head_access(*old(self), r)),
            *final(self) == if r matches Some(Some(_)) {
                Ring { next_avail: succ(old(self).next_avail), ..*old(self) }
            } else {
                *old(self)
            },
            !old(self).ready || old(self).avail_ring == 0 ==> r is None,
    {
        let r: Option<Option<u16>> = match queue_next_head(self, mem) {
            Ok(value) => Some(value),
            Err(_) => None,
        };
        if let Some(Some(_)) = r {
            self.next_avail = self.next_avail.wrapping_add(1);
        }
        r
    }

    /// Whether the used element that comes next can be stored.
    pub open spec fn can_use(&self, regions: Seq<(u64, u64)>, head: u16) -> bool {
        &&& head < self.size
        &&& covers(
            regions,
            self.used_ring + 4 + 8 * (self.next_used % self.size),
            8,
        )
    }

    /// Puts a used element for `head`, of which `len` bytes were written.
    pub fn add_used(&mut self, mem: &mut Guest, head: u16, len: u32) -> (r: bool)
        requires
            old(self).wf(),
        ensures
            final(self).wf(),
            !old(self).can_use(old(mem)@.regions, head) ==> {
                &&& !r && *final(self) == *old(self)
                &&& final(mem)@ == unused(*old(self), old(mem)@, head, len)
            },
            old(self).can_use(old(mem)@.regions, head) ==> {
                &&& *final(self) == (Ring { next_used: succ(old(self).next_used), ..*old(self) })
                &&& final(mem)@ == old(mem)@.after(used_access(*old(self), head, len, r))
            },
    {
        let (next_used, r): (u16, bool) = queue_add_used(self, mem, head, len);
        self.next_used = next_used;
        r
    }
}

pub(crate) fn replace_half(a: u64, value: u32, high: bool) -> (r: u64)
    ensures
        r == if high {
            with_high(a, value)
        } else {
            with_low(a, value)
        },
{
    if high {
        value as u64 * 0x1_0000_0000 + a % 0x1_0000_0000
    } else {
        a - a % 0x1_0000_0000 + value as u64
    }
}

/// Loading the index of the available ring.
pub open spec fn idx_access(ring: Ring, value: Option<u16>) -> Access {
    Access::AvailIdx { addr: ring.avail_ring, value }
}

/// Asking for the next available head.
pub open spec fn head_access(ring: Ring, value: Option<Option<u16>>) -> Access {
    Access::Head { addr: ring.avail_ring, index: ring.next_avail, value }
}

/// Storing the next used element.
pub open spec fn used_access(ring: Ring, head: u16, len: u32, ok: bool) -> Access {
    Access::Used { addr: ring.used_ring, index: ring.next_used, head, len, ok }
}

/// Memory after a used element that cannot be stored: one of a head that the
/// queue does not have is not begun, another one may be cut short.
pub open spec fn unused(ring: Ring, m: Memory, head: u16, len: u32) -> Memory {
    if head < ring.size {
        m.after(Access::UsedCut { addr: ring.used_ring, index: ring.next_used, head, len })
    } else {
        m
    }
}

/// `r` where it was not refused.
pub open spec fn answered<T>(r: Result<T, QueueFault>) -> Option<T> {
    match r {
        Ok(value) => Some(value),
        Err(_) => None,
    }
}

/// `virtio_queue::QueueT::is_valid`: the queue is ready, and the descriptor
/// table (16 bytes an element), the available ring (6 bytes and 2 an element)
/// and the used ring (6 bytes and 8 an element) are mapped.
#[verifier::external_body]
fn queue_is_valid(ring: &Ring, mem: &Guest) -> (r: bool)
    requires
        ring.wf(),
    ensures
        r == ring.valid(mem@.regions),
{
    let queue = Queue::try_from(QueueState {
        max_size: ring.max_size,
        next_avail: ring.next_avail,
        next_used: ring.next_used,
        event_idx_enabled: false,
        size: ring.size,
        ready: ring.ready,
        desc_table: ring.desc_table,
        avail_ring: ring.avail_ring,
        used_ring: ring.used_ring,
    });
    queue.unwrap().is_valid(mem.backing())
}

/// `virtio_queue::QueueT::avail_idx`: the index in the available ring, which
/// the guest writes. The load is recorded. It is atomic, so it can fail where
/// the host address is not aligned; it fails where the index is not mapped.
#[verifier::external_body]
fn queue_avail_idx(ring: &Ring, mem: &mut Guest) -> (r: Result<u16, QueueFault>)
    requires
        ring.wf(),
    ensures
        r is Ok ==> covers(old(mem)@.regions, ring.avail_ring + 2, 2),
        final(mem)@ == old(mem)@.after(idx_access(*ring, answered(r))),
{
    let queue = Queue::try_from(QueueState {
        max_size: ring.max_size,
        next_avail: ring.next_avail,
        next_used: ring.next_used,
        event_idx_enabled: false,
        size: ring.size,
        ready: ring.ready,
        desc_table: ring.desc_table,
        avail_ring: ring.avail_ring,
        used_ring: ring.used_ring,
    });
    Ok(queue.unwrap().avail_idx(mem.backing(), Ordering::Acquire)?.0)
}

/// `virtio_queue::QueueOwnedT::iter` and the first step of its iterator: the
/// head that the guest put at the next entry of the available ring. That it was
/// asked for is recorded. A queue that is not ready, or whose available ring is
/// at address zero, is refused.
#[verifier::external_body]
fn queue_next_head(ring: &Ring, mem: &mut Guest) -> (r: Result<Option<u16>, QueueFault>)
    requires
        ring.wf(),
    ensures
        !ring.ready || ring.avail_ring == 0 ==> r is Err,
        final(mem)@ == old(mem)@.after(head_access(*ring, answered(r))),
{
    let queue = Queue::try_from(QueueState {
        max_size: ring.max_size,
        next_avail: ring.next_avail,
        next_used: ring.next_used,
        event_idx_enabled: false,
        size: ring.size,
        ready: ring.ready,
        desc_table: ring.desc_table,
        avail_ring: ring.avail_ring,
        used_ring: ring.used_ring,
    });
    Ok(queue.unwrap().iter(mem.backing())?.next().map(|chain| chain.head_index()))
}

/// `virtio_queue::QueueT::add_used`: stores the element `head`, `len` if `head`
/// is below the queue size and its place is mapped, and then the ring's index.
/// Where `head` is too large nothing is stored. Where the place is not mapped
/// as a whole the element may be stored up to the first unmapped byte, and
/// nothing after it; which of its bytes were stored is not said. The store is
/// recorded, also when it is cut short. The first result is the next entry of
/// the used ring, which advances where the element was stored; the second tells
/// that the index was stored too, which is atomic and can fail where the host
/// address is not aligned.
#[verifier::external_body]
fn queue_add_used(ring: &Ring, mem: &mut Guest, head: u16, len: u32) -> (r: (u16, bool))
    requires
        ring.wf(),
    ensures
        r.0 == if ring.can_use(old(mem)@.regions, head) {
            succ(ring.next_used)
        } else {
            ring.next_used
        },
        r.1 ==> ring.can_use(old(mem)@.regions, head),
        final(mem)@ == if ring.can_use(old(mem)@.regions, head) {
            old(mem)@.after(used_access(*ring, head, len, r.1))
        } else {
            unused(*ring, old(mem)@, head, len)
        },
{
    let queue = Queue::try_from(QueueState {
        max_size: ring.max_size,
        next_avail: ring.next_avail,
        next_used: ring.next_used,
        event_idx_enabled: false,
        size: ring.size,
        ready: ring.ready,
        desc_table: ring.desc_table,
        avail_ring: ring.avail_ring,
        used_ring: ring.used_ring,
    });
    let mut queue = queue.unwrap();
    let stored = queue.add_used(mem.backing(), head, len).is_ok();
    (queue.next_used(), stored)
}

/// One element of a descriptor table.
#[derive(Clone, Copy, Debug, PartialEq, Eq, Structural)]
pub struct Descriptor {
    pub addr: u64,
    pub len: u32,
    pub flags: u16,
    pub next: u16,
}

impl Descriptor {
    /// The descriptor in 16 bytes of a table.
    pub open spec fn decode(b: Seq<u8>) -> Descriptor {
        Descriptor {
            addr: le64(b, 0) as u64,
            len: le32(b, 8) as u32,
            flags: le16(b, 12) as u16,
            next: le16(b, 14) as u16,
        }
    }

    /// Another descriptor follows.
    pub open spec fn chained(&self) -> bool {
        self.flags % 2 == 1
    }

    /// The device may write the buffer, and not read it.
    pub open spec fn writable(&self) -> bool {
        (self.flags / 2) % 2 == 1
    }

    /// The buffer is a table of descriptors.
    pub open spec fn indirect(&self) -> bool {
        (self.flags / 4) % 2 == 1
    }

    /// Only known flags are set, and the buffer is mapped.
    pub open spec fn sound(&self, regions: Seq<(u64, u64)>) -> bool {
        self.flags <= 3 && covers(regions, self.addr as int, self.len as int)
    }

    pub fn new(addr: u64, len: u32, flags: u16, next: u16) -> (r: Descriptor)
        ensures
            r == (Descriptor { addr, len, flags, next }),
    {
        Descriptor { addr, len, flags, next }
    }

    pub fn parse(b: &[u8]) -> (r: Descriptor)
        requires
            b.len() >= 16,
        ensures
            r == Descriptor::decode(b@),
    {
        Descriptor {
            addr: get_le64(b, 0),
            len: get_le32(b, 8),
            flags: get_le16(b, 12),
            next: get_le16(b, 14),
        }
    }

    pub fn has_next(&self) -> (r: bool)
        ensures
            r == self.chained(),
    {
        self.flags % 2 == 1
    }

    pub fn is_write_only(&self) -> (r: bool)
        ensures
            r == self.writable(),
    {
        (self.flags / 2) % 2 == 1
    }

    pub fn refers_to_indirect_table(&self) -> (r: bool)
        ensures
            r == self.indirect(),
    {
        (self.flags / 4) % 2 == 1
    }

    /// Whether only known flags are set and the buffer is mapped.
    pub fn is_sound(&self, mem: &Guest) -> (r: bool)
        ensures
            r == self.sound(mem@.regions),
    {
        self.flags <= 3 && mem.check_range(self.addr, self.len as usize)
    }
}

} // verus!

//! virtio-mem 1.2 and transactional, sparse guest-memory mappings.
use crate::bytes::{get_le16, get_le64, le16, le16_bytes, le64, le64_bytes, put_le16, put_le64};
use crate::devices::blocks::Blocks;
use crate::devices::buffers::{
    copy_from, copy_to, length, reachable, reads, slices, span, spread, sum_lengths, writes,
};
use crate::devices::mmio::{read_config, VirtioDevice};
use crate::devices::plugging::{
    lemma_outside_same, outside, requests_keep_memory_in_step, requests_leave_other_memory,
    unsettled,
};
use crate::devices::queues::{chain_view, complete_rel, pop_rel, Chain, Queues, QueuesView};
use crate::error::{DeviceError, MemoryError};
use crate::guest::{
    covers, fits, holds, inserted, lemma_filter_ordered, lemma_inserted, mapped, ordered, pieces,
    seen, Allocation, Guest, Memory, Piece, Plan, Region, Segment,
};
use crate::math::{is_power_of_two, is_pow2, through};
use crate::memory::{
    granule_mib, lemma_block_positive, mib_bytes, sizes_ok, Mapper, MemoryControl,
    MemoryLifecycle, MemoryStatus, HOTPLUG_BLOCK_MIB, MIB,
};
use crate::platform::VmCall;
use crate::ring::Descriptor;
use vstd::arithmetic::power2::{lemma2_to64, lemma_pow2_strictly_increases, pow2};
use vstd::prelude::*;

verus! {

/// Requests that one turn serves, so that the host stays responsive.
pub const BUDGET: u16 = 128;

/// Sparse virtio-mem device. Initial requested and plugged capacity are zero.
pub struct VirtioMem {
    pub start: u64,
    /// Bytes of the region, of a block, of the target and of the plugged blocks.
    pub capacity: u64,
    pub block: u64,
    pub requested: u64,
    pub plugged: u64,
    pub generation: u32,
    /// The driver is up, as far as the device knows.
    pub ready: bool,
    pub blocks: Blocks,
    /// A failed rollback may leave mappings alive until the VM is destroyed.
    pub retained: Vec<Region>,
}

/// The device as plain values.
#[verifier::ext_equal]
pub struct MemView {
    pub start: u64,
    pub capacity: u64,
    pub block: u64,
    pub requested: u64,
    pub plugged: u64,
    pub generation: u32,
    pub ready: bool,
    /// The addresses of the plugged blocks, and what backs each.
    pub blocks: Set<u64>,
    pub table: Map<u64, Allocation>,
    pub retained: Seq<Piece>,
}

impl View for VirtioMem {
    type V = MemView;

    open spec fn view(&self) -> MemView {
        MemView {
            start: self.start,
            capacity: self.capacity,
            block: self.block,
            requested: self.requested,
            plugged: self.plugged,
            generation: self.generation,
            ready: self.ready,
            blocks: self.blocks.set(),
            table: self.blocks.table(),
            retained: pieces(self.retained@),
        }
    }
}

impl MemView {
    /// A block of the region may start at `a`.
    pub open spec fn slot(self, a: u64) -> bool {
        &&& self.start <= a
        &&& a + self.block <= self.start + self.capacity
        &&& (a - self.start) % (self.block as int) == 0
    }

    /// The region is made of blocks, and every block is one of them.
    pub open spec fn shape(self) -> bool {
        &&& 0 < self.block <= usize::MAX
        &&& self.block % MIB == 0
        &&& self.capacity % self.block == 0
        &&& self.start % self.block == 0
        &&& self.start + self.capacity <= u64::MAX
        &&& self.blocks.finite()
        &&& forall|a: u64| #[trigger] self.blocks.contains(a) ==> self.slot(a)
        &&& forall|i: int|
            0 <= i < self.retained.len() ==> self.slot((#[trigger] self.retained[i]).range.0)
                && self.retained[i].range.1 == self.block
    }

    /// Each plugged block is backed, and the plugged size is that of the
    /// plugged blocks.
    pub open spec fn wf(self) -> bool {
        &&& self.shape()
        &&& self.table.dom() == self.blocks
        &&& self.plugged == self.blocks.len() * self.block
    }

    /// The device and the control state speak of the same sizes.
    pub open spec fn agrees(self, status: MemoryStatus) -> bool {
        &&& status.wf()
        &&& self.capacity == status.region_size_mib * MIB
        &&& self.block == status.block_size_mib * MIB
        &&& self.plugged == status.plugged_size_mib * MIB
    }

    /// In the device's range, exactly the plugged blocks are in the view of
    /// guest memory.
    pub open spec fn exact(self, regions: Seq<(u64, u64)>) -> bool {
        &&& forall|a: u64| #[trigger]
            self.blocks.contains(a) ==> regions.contains((a, self.block))
        &&& forall|i: int|
            0 <= i < regions.len() && (#[trigger] regions[i]).0 < self.start + self.capacity
                && self.start < regions[i].0 + regions[i].1 ==> self.blocks.contains(regions[i].0)
                && regions[i].1 == self.block
    }
}

impl MemView {
    /// In the device's range, exactly the plugged blocks are in the view of
    /// guest memory, each of them as the allocation that the device holds.
    pub open spec fn mirrored(self, memory: Memory) -> bool {
        &&& self.exact(memory.regions)
        &&& forall|a: u64| #[trigger]
            self.blocks.contains(a) ==> memory.backings.contains_key(a) && memory.backings[a]
                == self.table[a]
    }
}

/// The blocks after those at `addresses` were plugged, or unplugged.
pub open spec fn toggled(blocks: Set<u64>, addresses: Seq<u64>, plug: bool) -> Set<u64>
    decreases addresses.len(),
{
    if addresses.len() == 0 {
        blocks
    } else {
        let rest = toggled(blocks, addresses.drop_last(), plug);
        if plug {
            rest.insert(addresses.last())
        } else {
            rest.remove(addresses.last())
        }
    }
}

/// The regions of guest memory after the blocks at `addresses` were plugged, or
/// unplugged.
pub open spec fn changed(
    regions: Seq<(u64, u64)>,
    addresses: Seq<u64>,
    block: u64,
    plug: bool,
) -> Seq<(u64, u64)>
    decreases addresses.len(),
{
    if addresses.len() == 0 {
        regions
    } else {
        let last = addresses.last();
        let rest = changed(regions, addresses.drop_last(), block, plug);
        if plug {
            inserted(rest, (last, block))
        } else {
            rest.filter(|x: (u64, u64)| x.0 != last)
        }
    }
}

/// The blocks at `addresses` may be plugged, or unplugged.
pub open spec fn changeable(d: MemView, addresses: Seq<u64>, plug: bool) -> bool {
    &&& forall|i: int|
        0 <= i < addresses.len() ==> d.slot(#[trigger] addresses[i]) && d.blocks.contains(
            addresses[i],
        ) != plug
    &&& forall|i: int, j: int|
        0 <= i < j < addresses.len() ==> #[trigger] addresses[i] != #[trigger] addresses[j]
}

pub(crate) proof fn lemma_toggled(blocks: Set<u64>, addresses: Seq<u64>, plug: bool)
    ensures
        forall|x: u64| #[trigger]
            toggled(blocks, addresses, plug).contains(x) <==> if plug {
                blocks.contains(x) || addresses.contains(x)
            } else {
                blocks.contains(x) && !addresses.contains(x)
            },
        blocks.finite() ==> toggled(blocks, addresses, plug).finite(),
    decreases addresses.len(),
{
    if addresses.len() > 0 {
        let rest = addresses.drop_last();
        lemma_toggled(blocks, rest, plug);
        assert forall|x: u64| #[trigger] addresses.contains(x) <==> rest.contains(x) || x
            == addresses.last() by {
            if addresses.contains(x) {
                let i = choose|i: int| 0 <= i < addresses.len() && addresses[i] == x;
                if i < rest.len() {
                    assert(rest[i] == x);
                }
            }
            if rest.contains(x) {
                let i = choose|i: int| 0 <= i < rest.len() && rest[i] == x;
                assert(addresses[i] == x);
            }
            assert(addresses[addresses.len() - 1] == addresses.last());
        }
        assert forall|x: u64| #[trigger]
            toggled(blocks, addresses, plug).contains(x) <==> (if plug {
                blocks.contains(x) || addresses.contains(x)
            } else {
                blocks.contains(x) && !addresses.contains(x)
            }) by {
            assert(addresses.contains(x) <==> rest.contains(x) || x == addresses.last());
            assert(toggled(blocks, rest, plug).contains(x) <==> (if plug {
                blocks.contains(x) || rest.contains(x)
            } else {
                blocks.contains(x) && !rest.contains(x)
            }));
        }
    }
}

/// Two places for a block are the same, or do not overlap.
proof fn lemma_slots_apart(d: MemView, a: u64, b: u64)
    requires
        d.slot(a),
        d.slot(b),
        0 < d.block,
        a != b,
    ensures
        a + d.block <= b || b + d.block <= a,
{
    let s = d.block as int;
    let x = a - d.start;
    let y = b - d.start;
    let p = x / s;
    let q = y / s;
    vstd::arithmetic::div_mod::lemma_fundamental_div_mod(x, s);
    vstd::arithmetic::div_mod::lemma_fundamental_div_mod(y, s);
    if p < q {
        assert(s * p + s <= s * q) by (nonlinear_arith)
            requires
                p < q,
                0 < s,
        ;
    } else if q < p {
        assert(s * q + s <= s * p) by (nonlinear_arith)
            requires
                q < p,
                0 < s,
        ;
    }
}

/// An unplugged place overlaps no region of guest memory.
proof fn lemma_place_is_free(d: MemView, regions: Seq<(u64, u64)>, a: u64)
    requires
        d.shape(),
        d.exact(regions),
        d.slot(a),
        !d.blocks.contains(a),
    ensures
        fits(regions, (a, d.block)),
{
    assert forall|i: int| 0 <= i < regions.len() implies (#[trigger] regions[i]).0 + regions[i].1
        <= a || a + d.block <= regions[i].0 by {
        let r = regions[i];
        if r.0 < d.start + d.capacity && d.start < r.0 + r.1 {
            assert(d.blocks.contains(r.0));
            lemma_slots_apart(d, a, r.0);
        }
    }
}

/// Plugging or unplugging one block keeps the view of guest memory exact.
proof fn lemma_exact_step(d: MemView, regions: Seq<(u64, u64)>, a: u64, plug: bool)
    requires
        d.shape(),
        d.exact(regions),
        ordered(regions),
        d.slot(a),
        d.blocks.contains(a) != plug,
    ensures
        plug ==> fits(regions, (a, d.block)) && ordered(inserted(regions, (a, d.block)))
            && (MemView { blocks: d.blocks.insert(a), ..d }).exact(
            inserted(regions, (a, d.block)),
        ),
        !plug ==> regions.contains((a, d.block)) && ordered(
            regions.filter(|x: (u64, u64)| x.0 != a),
        ) && (MemView { blocks: d.blocks.remove(a), ..d }).exact(
            regions.filter(|x: (u64, u64)| x.0 != a),
        ),
{
    if plug {
        lemma_place_is_free(d, regions, a);
        let new = (a, d.block);
        lemma_inserted(regions, new);
        let all = inserted(regions, new);
        let e = MemView { blocks: d.blocks.insert(a), ..d };
        assert forall|b: u64| #[trigger] e.blocks.contains(b) implies all.contains((b, e.block)) by {
            if b != a {
                assert(d.blocks.contains(b));
            }
        }
        assert forall|i: int|
            0 <= i < all.len() && (#[trigger] all[i]).0 < e.start + e.capacity && e.start
                < all[i].0 + all[i].1 implies e.blocks.contains(all[i].0) && all[i].1 == e.block by {
            assert(all.contains(all[i]));
            if all[i] != new {
                let k = choose|k: int| 0 <= k < regions.len() && regions[k] == all[i];
                assert(d.blocks.contains(regions[k].0));
            }
        }
    } else {
        let keep = |x: (u64, u64)| x.0 != a;
        lemma_filter_ordered(regions, keep);
        let all = regions.filter(keep);
        let e = MemView { blocks: d.blocks.remove(a), ..d };
        assert forall|b: u64| #[trigger] e.blocks.contains(b) implies all.contains((b, e.block)) by {
            assert(d.blocks.contains(b));
            assert(keep((b, e.block)));
        }
        assert forall|i: int|
            0 <= i < all.len() && (#[trigger] all[i]).0 < e.start + e.capacity && e.start
                < all[i].0 + all[i].1 implies e.blocks.contains(all[i].0) && all[i].1 == e.block by {
            assert(all.contains(all[i]));
            assert(keep(all[i]));
            let k = choose|k: int| 0 <= k < regions.len() && regions[k] == all[i];
            assert(d.blocks.contains(regions[k].0));
        }
    }
}

/// Every address of the device's range is mapped exactly where a plugged block
/// holds it.
pub proof fn window_maps_exactly_the_plugged_blocks(
    d: MemView,
    regions: Seq<(u64, u64)>,
    x: int,
)
    requires
        d.shape(),
        d.exact(regions),
        d.start <= x < d.start + d.capacity,
    ensures
        mapped(regions, x) <==> exists|a: u64|
            #[trigger] d.blocks.contains(a) && a <= x < a + d.block,
{
    if mapped(regions, x) {
        let i = choose|i: int| 0 <= i < regions.len() && #[trigger] holds(regions[i], x);
        assert(d.blocks.contains(regions[i].0));
    }
    if exists|a: u64| #[trigger] d.blocks.contains(a) && a <= x < a + d.block {
        let a = choose|a: u64| #[trigger] d.blocks.contains(a) && a <= x < a + d.block;
        let i = choose|i: int| 0 <= i < regions.len() && regions[i] == (a, d.block);
        assert(holds(regions[i], x));
    }
}

/// The plugged blocks never hold more than the region.
pub proof fn plugged_never_exceeds_capacity(d: MemView)
    requires
        d.shape(),
    ensures
        d.blocks.len() * d.block <= d.capacity,
{
    let s = d.block as int;
    let n = d.capacity as int / s;
    vstd::arithmetic::div_mod::lemma_fundamental_div_mod(d.capacity as int, s);
    assert forall|a: u64| #[trigger] d.blocks.contains(a) implies (a - d.start) % s == 0 && d.start
        <= a && a < d.start + n * s by {
        assert(d.slot(a));
        assert(n * s == s * n) by (nonlinear_arith);
    }
    lemma_count(d.start, s, n as nat, d.blocks);
    assert(d.blocks.len() * d.block <= n * s) by (nonlinear_arith)
        requires
            d.blocks.len() <= n,
            s == d.block,
            0 < s,
    ;
    assert(n * s == s * n) by (nonlinear_arith);
}

/// At most `n` multiples of `s` lie in `n` steps from `start` on.
proof fn lemma_count(start: u64, s: int, n: nat, blocks: Set<u64>)
    requires
        0 < s,
        blocks.finite(),
        forall|a: u64| #[trigger]
            blocks.contains(a) ==> (a - start) % s == 0 && start <= a && a < start + n * s,
    ensures
        blocks.len() <= n,
    decreases n,
{
    if n == 0 {
        assert(blocks =~= Set::empty()) by {
            assert forall|a: u64| !blocks.contains(a) by {
                assert(0 * s == 0) by (nonlinear_arith);
            }
        }
    } else {
        let last = start + (n - 1) * s;
        assert(n * s == (n - 1) * s + s) by (nonlinear_arith);
        let top = last as u64;
        let rest = blocks.remove(top);
        assert forall|a: u64| #[trigger] rest.contains(a) implies (a - start) % s == 0 && start <= a
            && a < start + (n - 1) * s by {
            assert(blocks.contains(a));
            let x = a - start;
            let q = x / s;
            vstd::arithmetic::div_mod::lemma_fundamental_div_mod(x, s);
            if x >= (n - 1) * s {
                assert(q == n - 1) by (nonlinear_arith)
                    requires
                        x == s * q,
                        (n - 1) * s <= x < (n - 1) * s + s,
                        0 < s,
                ;
                assert(s * q == (n - 1) * s) by (nonlinear_arith)
                    requires
                        q == n - 1,
                ;
                assert(a == last);
            }
        }
        lemma_count(start, s, (n - 1) as nat, rest);
    }
}

/// A mapping asked for, or its undoing, with the answer.
pub open spec fn asked(piece: Piece, map: bool, result: Result<(), MemoryError>) -> VmCall {
    if map {
        VmCall::Mapped { piece, result }
    } else {
        VmCall::Unmapped { piece, result }
    }
}

/// The calls that map, or unmap, each of `list` with success.
pub open spec fn granted(list: Seq<Piece>, map: bool) -> Seq<VmCall> {
    list.map_values(|p: Piece| asked(p, map, Ok(())))
}

/// The calls that undo what was done to `list`, the latest first, with the
/// answers so far.
pub open spec fn undoing(
    list: Seq<Piece>,
    map: bool,
    answers: Seq<Result<(), MemoryError>>,
) -> Seq<VmCall> {
    Seq::new(answers.len(), |j: int| asked(list[list.len() - 1 - j], !map, answers[j]))
}

/// The first failure among `answers`.
pub open spec fn first_error(answers: Seq<Result<(), MemoryError>>) -> Option<MemoryError>
    decreases answers.len(),
{
    if answers.len() == 0 {
        None
    } else {
        match first_error(answers.drop_last()) {
            Some(e) => Some(e),
            None => match answers.last() {
                Err(e) => Some(e),
                Ok(()) => None,
            },
        }
    }
}

/// `list` are the blocks at `addresses`: the plugged ones, where they are to be
/// unplugged.
pub open spec fn chosen(d: MemView, addresses: Seq<u64>, plug: bool, list: Seq<Piece>) -> bool {
    &&& list.len() == addresses.len()
    &&& forall|i: int|
        0 <= i < list.len() ==> (#[trigger] list[i]).range == (addresses[i], d.block) && (!plug
            ==> list[i].allocation == d.table[addresses[i]])
}

/// What backs each address after `list` was plugged, or unplugged.
pub open spec fn backed(table: Map<u64, Allocation>, list: Seq<Piece>, plug: bool) -> Map<
    u64,
    Allocation,
>
    decreases list.len(),
{
    if list.len() == 0 {
        table
    } else {
        let rest = backed(table, list.drop_last(), plug);
        if plug {
            rest.insert(list.last().range.0, list.last().allocation)
        } else {
            rest.remove(list.last().range.0)
        }
    }
}

/// What the device holds and what the view holds agree as before.
pub(crate) proof fn lemma_backed(
    d: MemView,
    memory: Memory,
    addresses: Seq<u64>,
    plug: bool,
    list: Seq<Piece>,
)
    requires
        d.table.dom() == d.blocks,
        forall|a: u64| #[trigger]
            d.blocks.contains(a) ==> memory.backings.contains_key(a) && memory.backings[a]
                == d.table[a],
        chosen(d, addresses, plug, list),
    ensures
        backed(d.table, list, plug).dom() == toggled(d.blocks, addresses, plug),
        forall|a: u64| #[trigger]
            toggled(d.blocks, addresses, plug).contains(a) ==> backed(
                memory.backings,
                list,
                plug,
            ).contains_key(a) && backed(memory.backings, list, plug)[a] == backed(
                d.table,
                list,
                plug,
            )[a],
    decreases list.len(),
{
    if list.len() > 0 {
        let fewer = addresses.drop_last();
        let less = list.drop_last();
        assert forall|i: int| 0 <= i < less.len() implies (#[trigger] less[i]).range == (
            fewer[i],
            d.block,
        ) && (!plug ==> less[i].allocation == d.table[fewer[i]]) by {
            assert(list[i].range == (addresses[i], d.block));
        }
        lemma_backed(d, memory, fewer, plug, less);
        assert(list[list.len() - 1].range.0 == addresses[addresses.len() - 1]);
        assert(backed(d.table, list, plug).dom() =~= toggled(d.blocks, addresses, plug));
    }
}

/// What the device, its control state, the platform and guest memory are.
pub struct Machine {
    pub device: MemView,
    pub status: MemoryStatus,
    pub maps: Seq<VmCall>,
    pub memory: Memory,
}

/// The whole of what a request may change.
pub open spec fn snapshot(
    device: MemView,
    status: MemoryStatus,
    maps: Seq<VmCall>,
    memory: Memory,
) -> Machine {
    Machine { device, status, maps, memory }
}

/// Plugging or unplugging the blocks at `addresses`: all of it happens, or none
/// of it; a rollback that fails keeps the allocations. What is mapped for the
/// guest, what the device holds and what the view holds are the same
/// allocations.
pub open spec fn change_rel(
    s0: Machine,
    addresses: Seq<u64>,
    plug: bool,
    s1: Machine,
    r: Result<bool, MemoryError>,
) -> bool {
    exists|list: Seq<Piece>| #[trigger]
        chosen(s0.device, addresses, plug, list) && list_rel(s0, addresses, list, plug, s1, r)
}

/// The same, where the blocks are `list`.
pub open spec fn list_rel(
    s0: Machine,
    addresses: Seq<u64>,
    list: Seq<Piece>,
    plug: bool,
    s1: Machine,
    r: Result<bool, MemoryError>,
) -> bool {
    match r {
        Ok(true) => s1 == (Machine {
            device: MemView {
                blocks: toggled(s0.device.blocks, addresses, plug),
                table: backed(s0.device.table, list, plug),
                ..s0.device
            },
            maps: s0.maps + granted(list, plug),
            memory: Memory {
                regions: changed(s0.memory.regions, addresses, s0.device.block, plug),
                backings: backed(s0.memory.backings, list, plug),
                ..s0.memory
            },
            ..s0
        }),
        Ok(false) => exists|k: int, e: MemoryError, answers: Seq<Result<(), MemoryError>>|
            {
                &&& #[trigger] failed_at(s0, list, plug, k, e, answers, s1.maps)
                &&& first_error(answers) is None
                &&& s1 == (Machine { maps: s1.maps, ..s0 })
            },
        Err(MemoryError::RollbackFailed { source, rollback }) => exists|
            k: int,
            answers: Seq<Result<(), MemoryError>>,
        |
            {
                &&& #[trigger] failed_at(s0, list, plug, k, *source, answers, s1.maps)
                &&& first_error(answers) == Some(*rollback)
                &&& s1 == (Machine {
                    device: MemView { retained: s0.device.retained + list, ..s0.device },
                    maps: s1.maps,
                    ..s0
                })
            },
        Err(e) => e is GuestMemory && plug && s1 == s0,
    }
}

/// The first `k` of `list` were done, the next one failed with `e`, and the
/// others were undone with `answers`.
pub open spec fn failed_at(
    s0: Machine,
    list: Seq<Piece>,
    plug: bool,
    k: int,
    e: MemoryError,
    answers: Seq<Result<(), MemoryError>>,
    maps: Seq<VmCall>,
) -> bool {
    &&& 0 <= k < list.len()
    &&& answers.len() == k
    &&& maps == s0.maps + granted(list.take(k), plug) + seq![asked(list[k], plug, Err(e))]
        + undoing(list.take(k), plug, answers)
}

/// Maps, or unmaps, `regions` in order up to the first failure.
fn apply<M: Mapper>(regions: &Vec<Region>, map: bool, mapper: &mut M) -> (r: Result<
    (),
    (usize, MemoryError),
>)
    ensures
        r is Ok ==> final(mapper).calls() == old(mapper).calls() + granted(
            pieces(regions@),
            map,
        ),
        r matches Err((k, e)) ==> k < regions@.len() && final(mapper).calls() == old(mapper).calls()
            + granted(pieces(regions@).take(k as int), map) + seq![
            asked(pieces(regions@)[k as int], map, Err(e)),
        ],
{
    let ghost list = pieces(regions@);
    let ghost before = mapper.calls();
    let mut k: usize = 0;
    assert(granted(list.take(0), map) =~= Seq::empty());
    assert(before + Seq::<VmCall>::empty() =~= before);
    while k < regions.len()
        invariant
            k <= regions@.len(),
            list == pieces(regions@),
            before == old(mapper).calls(),
            mapper.calls() == before + granted(list.take(k as int), map),
        decreases regions@.len() - k,
    {
        assert(list[k as int] == regions@[k as int].piece());
        let ghost here = mapper.calls();
        let result: Result<(), MemoryError> = if map {
            mapper.map(&regions[k])
        } else {
            mapper.unmap(&regions[k])
        };
        assert(mapper.calls() == here.push(asked(list[k as int], map, result)));
        let ghost answer = result;
        match result {
            Err(e) => {
                assert(mapper.calls() =~= before + granted(list.take(k as int), map) + seq![
                    asked(list[k as int], map, Err(e)),
                ]);
                return Err((k, e));
            },
            Ok(()) => {
                assert(mapper.calls() =~= before + granted(list.take(k + 1), map)) by {
                    assert(answer->Ok_0 == ());
                    assert(granted(list.take(k + 1), map) =~= granted(
                        list.take(k as int),
                        map,
                    ).push(asked(list[k as int], map, Ok(()))));
                }
            },
        }
        k = k + 1;
    }
    assert(list.take(list.len() as int) =~= list);
    Ok(())
}

/// Undoes what was done to the first `count` of `regions`, the latest first,
/// and goes on past a failure. Returns the first one.
fn undo<M: Mapper>(regions: &Vec<Region>, count: usize, map: bool, mapper: &mut M) -> (r: (
    Option<MemoryError>,
    Ghost<Seq<Result<(), MemoryError>>>,
))
    requires
        count <= regions@.len(),
    ensures
        r.1@.len() == count,
        r.0 == first_error(r.1@),
        final(mapper).calls() == old(mapper).calls() + undoing(
            pieces(regions@).take(count as int),
            map,
            r.1@,
        ),
{
    let ghost list = pieces(regions@).take(count as int);
    let ghost before = mapper.calls();
    let ghost mut answers: Seq<Result<(), MemoryError>> = Seq::empty();
    let mut first: Option<MemoryError> = None;
    let mut left: usize = count;
    assert(before + undoing(list, map, answers) =~= before);
    while left > 0
        invariant
            left <= count <= regions@.len(),
            list == pieces(regions@).take(count as int),
            answers.len() == count - left,
            first == first_error(answers),
            mapper.calls() == before + undoing(list, map, answers),
        decreases left,
    {
        let ghost here = mapper.calls();
        let ghost seen = answers;
        left = left - 1;
        assert(list[left as int] == regions@[left as int].piece());
        let result: Result<(), MemoryError> = if map {
            mapper.unmap(&regions[left])
        } else {
            mapper.map(&regions[left])
        };
        proof {
            answers = seen.push(result);
            assert(answers.drop_last() =~= seen);
            assert(mapper.calls() =~= before + undoing(list, map, answers));
        }
        match result {
            Ok(()) => {},
            Err(e) => {
                if first.is_none() {
                    first = Some(e);
                }
            },
        }
    }
    (first, Ghost(answers))
}

impl VirtioMem {
    /// The blocks at `addresses`, and guest memory with or without them.
    fn prepare(&self, addresses: &Vec<u64>, plug: bool, view: &Guest) -> (r: Result<
        (Vec<Region>, Plan),
        MemoryError,
    >)
        requires
            self@.shape(),
            self.blocks.size_of() == self.block,
            self@.mirrored(view@),
            changeable(self@, addresses@, plug),
        ensures
            r matches Ok((regions, next)) ==> {
                &&& chosen(self@, addresses@, plug, pieces(regions@))
                &&& next.regions() == changed(view@.regions, addresses@, self.block, plug)
                &&& next.backings() == backed(view@.backings, pieces(regions@), plug)
                &&& (MemView {
                    blocks: toggled(self@.blocks, addresses@, plug),
                    ..self@
                }).exact(next.regions())
            },
            r matches Err(e) ==> e is GuestMemory && plug,
    {
        let mut regions: Vec<Region> = Vec::new();
        let mut next: Plan = view.plan();
        let mut i: usize = 0;
        let ghost block = self.block;
        assert(addresses@.take(0) =~= Seq::empty());
        while i < addresses.len()
            invariant
                i <= addresses@.len(),
                block == self.block,
                self@.shape(),
                self.blocks.size_of() == self.block,
                changeable(self@, addresses@, plug),
                chosen(self@, addresses@.take(i as int), plug, pieces(regions@)),
                next.regions() == changed(view@.regions, addresses@.take(i as int), block, plug),
                next.backings() == backed(view@.backings, pieces(regions@), plug),
                (MemView {
                    blocks: toggled(self@.blocks, addresses@.take(i as int), plug),
                    ..self@
                }).exact(next.regions()),
            decreases addresses@.len() - i,
        {
            let addr: u64 = addresses[i];
            let ghost done = addresses@.take(i as int);
            let ghost more = addresses@.take(i + 1);
            let ghost d = MemView { blocks: toggled(self@.blocks, done, plug), ..self@ };
            next.regions_are_ordered();
            proof {
                assert(more.drop_last() =~= done);
                lemma_toggled(self@.blocks, done, plug);
                assert(!done.contains(addr)) by {
                    if done.contains(addr) {
                        let k = choose|k: int| 0 <= k < done.len() && done[k] == addr;
                        assert(addresses@[k] != addresses@[i as int]);
                    }
                }
                assert(d.shape()) by {
                    assert forall|a: u64| #[trigger] d.blocks.contains(a) implies d.slot(a) by {
                        if done.contains(a) {
                            let k = choose|k: int| 0 <= k < done.len() && done[k] == a;
                            assert(self@.slot(addresses@[k]));
                        } else {
                            assert(self@.blocks.contains(a));
                            assert(self@.slot(a));
                        }
                    }
                }
                assert(self@.slot(addresses@[i as int]));
                assert(d.slot(addr));
                lemma_exact_step(d, next.regions(), addr, plug);
            }
            let region: Region = if plug {
                match Region::new(addr, self.block as usize) {
                    Ok(region) => region,
                    Err(e) => {
                        return Err(e);
                    },
                }
            } else {
                match self.blocks.share(addr) {
                    Some(region) => region,
                    None => {
                        return Err(MemoryError::Regions);
                    },
                }
            };
            let changed_view: Result<Plan, MemoryError> = if plug {
                next.with_region(&region)
            } else {
                next.without_region(addr, self.block)
            };
            next = match changed_view {
                Ok(p) => p,
                Err(e) => {
                    return Err(e);
                },
            };
            let ghost before = regions@;
            let ghost piece = region.piece();
            regions.push(region);
            proof {
                let list = pieces(regions@);
                assert(list =~= pieces(before).push(piece));
                assert(list.drop_last() =~= pieces(before));
                assert forall|k: int| 0 <= k < list.len() implies (#[trigger] list[k]).range == (
                    more[k],
                    block,
                ) && (!plug ==> list[k].allocation == self@.table[more[k]]) by {
                    if k < i {
                        assert(pieces(before)[k].range == (done[k], block));
                    }
                }
            }
            i = i + 1;
        }
        assert(addresses@.take(addresses@.len() as int) =~= addresses@);
        Ok((regions, next))
    }
}

/// What a driver asks of the device, as decided before anything is changed.
#[allow(inconsistent_fields)]
pub enum Verdict {
    /// The request is answered as it stands.
    Answer { code: u16, state: u16 },
    /// The blocks at these addresses are to be plugged, or unplugged.
    Change { addresses: Seq<u64>, plug: bool },
}

/// The plugged blocks among the first `n` places, in address order.
pub open spec fn listed(d: MemView, n: nat) -> Seq<u64>
    decreases n,
{
    if n == 0 {
        Seq::empty()
    } else {
        let a = (d.start + (n - 1) * d.block) as u64;
        let rest = listed(d, (n - 1) as nat);
        if d.blocks.contains(a) {
            rest.push(a)
        } else {
            rest
        }
    }
}

/// Every plugged block, in address order.
pub open spec fn all_blocks(d: MemView) -> Seq<u64> {
    listed(d, (d.capacity / d.block) as nat)
}

/// The `count` blocks from `addr` on.
pub open spec fn row(addr: u64, count: int, block: u64) -> Seq<u64> {
    Seq::new(count as nat, |n: int| (addr + n * block) as u64)
}

/// The `count` blocks from `addr` on are places of the region.
pub open spec fn in_region(d: MemView, addr: u64, count: int) -> bool {
    &&& count != 0
    &&& addr % d.block == 0
    &&& d.start <= addr
    &&& addr + count * d.block <= d.start + d.capacity
}

/// The pinned range meets the block at `a`.
pub open spec fn pins(pin: (u64, u64), a: u64, block: u64) -> bool {
    &&& pin.0 < a + block
    &&& a < if pin.0 + pin.1 <= u64::MAX {
        pin.0 + pin.1
    } else {
        u64::MAX as int
    }
}

/// One of `pinned` meets one of the blocks at `addresses`.
pub open spec fn any_pinned(addresses: Seq<u64>, pinned: Seq<(u64, u64)>, block: u64) -> bool {
    exists|i: int, j: int|
        0 <= i < addresses.len() && 0 <= j < pinned.len() && #[trigger] pins(
            pinned[j],
            addresses[i],
            block,
        )
}

pub open spec fn any_plugged(blocks: Set<u64>, addresses: Seq<u64>) -> bool {
    exists|i: int| 0 <= i < addresses.len() && blocks.contains(#[trigger] addresses[i])
}

pub open spec fn all_plugged(blocks: Set<u64>, addresses: Seq<u64>) -> bool {
    forall|i: int| 0 <= i < addresses.len() ==> blocks.contains(#[trigger] addresses[i])
}

/// What is decided of the request `req`: 0 plugs, 1 unplugs, 2 unplugs all, 3
/// asks for the state. Errors are answered with 3, refusals with 1 (the target
/// is reached) and 2 (a block is in use).
pub open spec fn decide(
    d: MemView,
    status: MemoryStatus,
    req: Seq<u8>,
    pinned: Seq<(u64, u64)>,
) -> Verdict {
    let kind = le16(req, 0);
    let addr = le64(req, 8) as u64;
    let count = le16(req, 16);
    let addresses = if kind == 2 {
        all_blocks(d)
    } else {
        row(addr, count, d.block)
    };
    if kind > 3 || (kind != 2 && !in_region(d, addr, count)) {
        Verdict::Answer { code: 3, state: 0 }
    } else if kind == 3 {
        Verdict::Answer {
            code: 0,
            state: if !any_plugged(d.blocks, addresses) {
                1
            } else if all_plugged(d.blocks, addresses) {
                0
            } else {
                2
            },
        }
    } else if (kind == 0 && any_plugged(d.blocks, addresses)) || (kind == 1 && !all_plugged(
        d.blocks,
        addresses,
    )) {
        Verdict::Answer { code: 3, state: 0 }
    } else if kind == 0 && d.blocks.len() + count > status.requested_size_mib
        / status.block_size_mib {
        Verdict::Answer { code: 1, state: 0 }
    } else if kind != 0 && any_pinned(addresses, pinned, d.block) {
        Verdict::Answer { code: 2, state: 0 }
    } else {
        Verdict::Change { addresses, plug: kind == 0 }
    }
}

/// The state after a change, with the sizes counted anew.
pub open spec fn settled(s: Machine) -> Machine {
    let plugged = (s.device.blocks.len() * s.device.block) as u64;
    Machine {
        device: MemView {
            plugged,
            generation: s.device.generation.wrapping_add(1),
            ..s.device
        },
        status: MemoryStatus { plugged_size_mib: plugged / MIB, ..s.status },
        ..s
    }
}

/// Serving the request `req`: the answer's code and state.
pub open spec fn request_rel(
    s0: Machine,
    req: Seq<u8>,
    pinned: Seq<(u64, u64)>,
    s1: Machine,
    r: Result<(u16, u16), MemoryError>,
) -> bool {
    match decide(s0.device, s0.status, req, pinned) {
        Verdict::Answer { code, state } => s1 == s0 && r == Ok::<(u16, u16), MemoryError>(
            (code, state),
        ),
        Verdict::Change { addresses, plug } => exists|s: Machine, c: Result<bool, MemoryError>|
            #[trigger] change_rel(s0, addresses, plug, s, c) && match c {
                Err(e) => s1 == s && r == Err::<(u16, u16), MemoryError>(e),
                Ok(false) => s1 == s && r == Ok::<(u16, u16), MemoryError>((2, 0)),
                Ok(true) => s1 == settled(s) && r == Ok::<(u16, u16), MemoryError>((0, 0)),
            },
    }
}

proof fn lemma_listed(d: MemView, n: nat)
    requires
        d.shape(),
        n * d.block <= d.capacity,
    ensures
        forall|i: int| 0 <= i < listed(d, n).len() ==> d.blocks.contains(#[trigger] listed(d, n)[i])
            && listed(d, n)[i] < d.start + n * d.block,
        forall|i: int, j: int|
            0 <= i < j < listed(d, n).len() ==> (#[trigger] listed(d, n)[i]) < (#[trigger] listed(
                d,
                n,
            )[j]),
        forall|a: u64| #[trigger] d.blocks.contains(a) && a < d.start + n * d.block ==> listed(
            d,
            n,
        ).contains(a),
    decreases n,
{
    let all = listed(d, n);
    if n == 0 {
        assert(0 * d.block == 0) by (nonlinear_arith);
        assert forall|a: u64| #[trigger] d.blocks.contains(a) && a < d.start + n
            * d.block implies all.contains(a) by {
            assert(d.slot(a));
        }
    } else {
        let s = d.block as int;
        assert(n * s == (n - 1) * s + s) by (nonlinear_arith);
        lemma_listed(d, (n - 1) as nat);
        let rest = listed(d, (n - 1) as nat);
        let top = (d.start + (n - 1) * d.block) as u64;
        assert((n - 1) * s >= 0) by (nonlinear_arith)
            requires
                n >= 1,
                s > 0,
        ;
        assert forall|i: int| 0 <= i < all.len() implies d.blocks.contains(#[trigger] all[i])
            && all[i] < d.start + n * d.block by {
            if i < rest.len() {
                assert(all[i] == rest[i]);
            }
        }
        assert forall|i: int, j: int| 0 <= i < j < all.len() implies (#[trigger] all[i]) < (
        #[trigger] all[j]) by {
            assert(all[i] == rest[i]);
            if j < rest.len() {
                assert(all[j] == rest[j]);
            }
        }
        assert forall|a: u64| #[trigger] d.blocks.contains(a) && a < d.start + n
            * d.block implies all.contains(a) by {
            assert(d.slot(a));
            if a < d.start + (n - 1) * s {
                assert(rest.contains(a));
                let k = choose|k: int| 0 <= k < rest.len() && rest[k] == a;
                assert(all[k] == a);
            } else {
                let x = a - d.start;
                let q = x / s;
                vstd::arithmetic::div_mod::lemma_fundamental_div_mod(x, s);
                assert(q == n - 1) by (nonlinear_arith)
                    requires
                        x == s * q,
                        (n - 1) * s <= x < (n - 1) * s + s,
                        0 < s,
                ;
                assert(s * q == (n - 1) * s) by (nonlinear_arith)
                    requires
                        q == n - 1,
                ;
                assert(a == top);
                assert(all[all.len() - 1] == a);
            }
        }
    }
}

/// Unplugging all takes every plugged block, each of them once, and leaves
/// none.
pub proof fn unplug_all_leaves_nothing(d: MemView)
    requires
        d.shape(),
    ensures
        changeable(d, all_blocks(d), false),
        toggled(d.blocks, all_blocks(d), false) == Set::<u64>::empty(),
{
    let s = d.block as int;
    let n = d.capacity as int / s;
    vstd::arithmetic::div_mod::lemma_fundamental_div_mod(d.capacity as int, s);
    assert(n * s == s * n) by (nonlinear_arith);
    assert(n >= 0) by (nonlinear_arith)
        requires
            d.capacity == s * n,
            s > 0,
    ;
    lemma_listed(d, n as nat);
    let all = all_blocks(d);
    assert(d.capacity / d.block == n);
    assert(all == listed(d, n as nat));
    lemma_toggled(d.blocks, all, false);
    assert forall|i: int| 0 <= i < all.len() implies d.slot(#[trigger] all[i]) && d.blocks.contains(
        all[i],
    ) by {
        assert(d.blocks.contains(all[i]));
    }
    assert(toggled(d.blocks, all, false) =~= Set::empty()) by {
        assert forall|a: u64| !toggled(d.blocks, all, false).contains(a) by {
            if d.blocks.contains(a) {
                assert(d.slot(a));
            }
        }
    }
}

/// A row of blocks that lies in the region is made of places of the region.
pub(crate) proof fn lemma_row(d: MemView, addr: u64, count: int)
    requires
        d.shape(),
        in_region(d, addr, count),
        0 <= count,
    ensures
        row(addr, count, d.block).len() == count,
        forall|i: int|
            0 <= i < count ==> d.slot(#[trigger] row(addr, count, d.block)[i]) && row(
                addr,
                count,
                d.block,
            )[i] == addr + i * d.block,
        forall|i: int, j: int|
            0 <= i < j < count ==> (#[trigger] row(addr, count, d.block)[i]) < (
            #[trigger] row(addr, count, d.block)[j]),
{
    let s = d.block as int;
    let all = row(addr, count, d.block);
    assert forall|i: int| 0 <= i < count implies d.slot(#[trigger] all[i]) && all[i] == addr + i
        * d.block by {
        assert(i * s + s <= count * s) by (nonlinear_arith)
            requires
                i + 1 <= count,
                s > 0,
        ;
        assert(i * s >= 0) by (nonlinear_arith)
            requires
                i >= 0,
                s > 0,
        ;
        lemma_aligned(addr as int, d.start as int, i, s);
    }
    assert forall|i: int, j: int| 0 <= i < j < count implies (#[trigger] all[i]) < (
    #[trigger] all[j]) by {
        assert(d.slot(all[i]) && d.slot(all[j]));
        assert(i * s < j * s) by (nonlinear_arith)
            requires
                i < j,
                s > 0,
        ;
    }
}

proof fn lemma_aligned(addr: int, start: int, i: int, s: int)
    requires
        s > 0,
        addr % s == 0,
        start % s == 0,
    ensures
        (addr + i * s - start) % s == 0,
{
    let p = addr / s;
    let q = start / s;
    vstd::arithmetic::div_mod::lemma_fundamental_div_mod(addr, s);
    vstd::arithmetic::div_mod::lemma_fundamental_div_mod(start, s);
    assert(addr + i * s - start == (p + i - q) * s) by (nonlinear_arith)
        requires
            addr == s * p,
            start == s * q,
    ;
    vstd::arithmetic::div_mod::lemma_mod_multiples_basic(p + i - q, s);
}

impl VirtioMem {
    /// The device keeps its own sizes in order.
    pub open spec fn sound(&self) -> bool {
        self@.wf() && self.blocks.size_of() == self.block
    }

    /// Plugs or unplugs the blocks at `addresses`, with every vCPU quiescent and
    /// device processing suspended. `false` is a failure that was rolled back;
    /// an error is one that was not.
    fn change<M: Mapper>(
        &mut self,
        addresses: &Vec<u64>,
        plug: bool,
        mapper: &mut M,
        view: &mut Guest,
        status: Ghost<MemoryStatus>,
    ) -> (r: Result<bool, MemoryError>)
        requires
            old(self)@.shape(),
            old(self).blocks.size_of() == old(self).block,
            old(self)@.mirrored(old(view)@),
            changeable(old(self)@, addresses@, plug),
        ensures
            final(self)@.shape(),
            final(self).blocks.size_of() == final(self).block,
            final(self)@.mirrored(final(view)@),
            change_rel(
                snapshot(old(self)@, status@, old(mapper).calls(), old(view)@),
                addresses@,
                plug,
                snapshot(final(self)@, status@, final(mapper).calls(), final(view)@),
                r,
            ),
    {
        let ghost d0 = self@;
        let ghost s0 = snapshot(self@, status@, mapper.calls(), view@);
        let (mut regions, next): (Vec<Region>, Plan) = match self.prepare(addresses, plug, view) {
            Ok(prepared) => prepared,
            Err(e) => {
                proof {
                    let none = Seq::new(
                        addresses@.len(),
                        |i: int|
                            Piece {
                                range: (addresses@[i], d0.block),
                                allocation: d0.table[addresses@[i]],
                            },
                    );
                    assert(chosen(s0.device, addresses@, plug, none));
                    assert(list_rel(s0, addresses@, none, plug, s0, Err(e)));
                }
                return Err(e);
            },
        };
        let ghost held = regions@;
        let ghost list = pieces(held);
        assert(chosen(s0.device, addresses@, plug, list));
        proof {
            lemma_backed(d0, view@, addresses@, plug, list);
        }
        match apply(&regions, plug, mapper) {
            Ok(()) => {},
            Err((k, e)) => {
                let ghost here = mapper.calls();
                let (first, answers): (
                    Option<MemoryError>,
                    Ghost<Seq<Result<(), MemoryError>>>,
                ) = undo(&regions, k, plug, mapper);
                assert(failed_at(s0, list, plug, k as int, e, answers@, mapper.calls()));
                match first {
                    None => {
                        assert(list_rel(
                            s0,
                            addresses@,
                            list,
                            plug,
                            (Machine { maps: mapper.calls(), ..s0 }),
                            Ok(false),
                        ));
                        return Ok(false);
                    },
                    Some(rollback) => {
                        self.retained.append(&mut regions);
                        proof {
                            assert(self@.retained =~= d0.retained + list);
                            assert forall|i: int| 0 <= i < self@.retained.len() implies self@.slot(
                                (#[trigger] self@.retained[i]).range.0,
                            ) && self@.retained[i].range.1 == self@.block by {
                                if i < d0.retained.len() {
                                    assert(d0.slot(d0.retained[i].range.0));
                                } else {
                                    assert(list[i - d0.retained.len()].range.1 == d0.block);
                                    assert(d0.slot(addresses@[i - d0.retained.len()]));
                                }
                            }
                        }
                        let failure: MemoryError = MemoryError::RollbackFailed {
                            source: Box::new(e),
                            rollback: Box::new(rollback),
                        };
                        assert(list_rel(
                            s0,
                            addresses@,
                            list,
                            plug,
                            snapshot(self@, status@, mapper.calls(), view@),
                            Err(failure),
                        ));
                        return Err(failure);
                    },
                }
            },
        }
        let ghost e = MemView { blocks: toggled(d0.blocks, addresses@, plug), ..d0 };
        let ghost after = next.regions();
        view.adopt(next);
        let mut i: usize = 0;
        assert(addresses@.take(0) =~= Seq::empty());
        while i < addresses.len()
            invariant
                i <= addresses@.len(),
                d0.shape(),
                changeable(d0, addresses@, plug),
                self@ == (MemView {
                    blocks: toggled(d0.blocks, addresses@.take(i as int), plug),
                    table: backed(d0.table, list.take(i as int), plug),
                    ..d0
                }),
                self.blocks.size_of() == self.block,
                regions@ == held,
                list == pieces(held),
                chosen(d0, addresses@, plug, list),
            decreases addresses@.len() - i,
        {
            let ghost more = addresses@.take(i + 1);
            assert(more.drop_last() =~= addresses@.take(i as int));
            assert(list.take(i + 1).drop_last() =~= list.take(i as int));
            assert(list[i as int] == held[i as int].piece());
            assert(list[i as int].range == (addresses@[i as int], d0.block));
            if plug {
                self.blocks.insert(regions[i].share());
            } else {
                self.blocks.remove(addresses[i]);
            }
            assert(self@ =~= (MemView {
                blocks: toggled(d0.blocks, more, plug),
                table: backed(d0.table, list.take(i + 1), plug),
                ..d0
            }));
            i = i + 1;
        }
        proof {
            assert(addresses@.take(addresses@.len() as int) =~= addresses@);
            assert(list.take(list.len() as int) =~= list);
            lemma_toggled(d0.blocks, addresses@, plug);
            assert forall|a: u64| #[trigger] self@.blocks.contains(a) implies self@.slot(a) by {
                if addresses@.contains(a) {
                    let k = choose|k: int| 0 <= k < addresses@.len() && addresses@[k] == a;
                    assert(d0.slot(addresses@[k]));
                } else {
                    assert(d0.blocks.contains(a));
                    assert(d0.slot(a));
                }
            }
        }
        assert(list_rel(
            s0,
            addresses@,
            list,
            plug,
            snapshot(self@, status@, mapper.calls(), view@),
            Ok(true),
        ));
        assert(view@.regions == after);
        assert(e.exact(after));
        assert(self@.exact(view@.regions)) by {
            assert forall|a: u64| #[trigger] self@.blocks.contains(a) implies view@.regions.contains(
                (a, self@.block),
            ) by {
                assert(e.blocks.contains(a));
            }
        }
        Ok(true)
    }

    /// The plugged blocks in address order.
    fn addresses(&self) -> (r: Vec<u64>)
        requires
            self@.shape(),
        ensures
            r@ == all_blocks(self@),
    {
        let mut out: Vec<u64> = Vec::new();
        let places: u64 = self.capacity / self.block;
        let mut n: u64 = 0;
        let mut at: u64 = self.start;
        proof {
            vstd::arithmetic::div_mod::lemma_fundamental_div_mod(
                self.capacity as int,
                self.block as int,
            );
            assert(0 * self.block == 0) by (nonlinear_arith);
            let q = self.capacity as int / self.block as int;
            assert(q * self.block == self.block * q) by (nonlinear_arith);
        }
        while n < places
            invariant
                n <= places,
                self@.shape(),
                places * self.block == self.capacity,
                at == self.start + n * self.block,
                out@ == listed(self@, n as nat),
            decreases places - n,
        {
            proof {
                let s = self.block as int;
                assert((n + 1) * s == n * s + s) by (nonlinear_arith);
                assert((n + 1) * s <= places * s) by (nonlinear_arith)
                    requires
                        n + 1 <= places,
                        s > 0,
                ;
            }
            if self.blocks.contains(at) {
                out.push(at);
            }
            at = at + self.block;
            n = n + 1;
        }
        out
    }

    /// The `count` blocks from `addr` on.
    fn row(&self, addr: u64, count: u64) -> (r: Vec<u64>)
        requires
            self@.shape(),
            in_region(self@, addr, count as int),
        ensures
            r@ == row(addr, count as int, self.block),
    {
        let mut out: Vec<u64> = Vec::new();
        let mut n: u64 = 0;
        let mut at: u64 = addr;
        assert(0 * self.block == 0) by (nonlinear_arith);
        while n < count
            invariant
                n <= count,
                self@.shape(),
                in_region(self@, addr, count as int),
                at == addr + n * self.block,
                out@ =~= row(addr, count as int, self.block).take(n as int),
            decreases count - n,
        {
            proof {
                let s = self.block as int;
                assert((n + 1) * s == n * s + s) by (nonlinear_arith);
                assert((n + 1) * s <= count * s) by (nonlinear_arith)
                    requires
                        n + 1 <= count,
                        s > 0,
                ;
                lemma_row(self@, addr, count as int);
            }
            out.push(at);
            at = at + self.block;
            n = n + 1;
        }
        out
    }

    fn is_any_plugged(&self, addresses: &Vec<u64>) -> (r: bool)
        ensures
            r == any_plugged(self@.blocks, addresses@),
    {
        let mut i: usize = 0;
        while i < addresses.len()
            invariant
                i <= addresses@.len(),
                forall|k: int| 0 <= k < i ==> !self@.blocks.contains(#[trigger] addresses@[k]),
            decreases addresses@.len() - i,
        {
            if self.blocks.contains(addresses[i]) {
                return true;
            }
            i = i + 1;
        }
        false
    }

    fn is_all_plugged(&self, addresses: &Vec<u64>) -> (r: bool)
        ensures
            r == all_plugged(self@.blocks, addresses@),
    {
        let mut i: usize = 0;
        while i < addresses.len()
            invariant
                i <= addresses@.len(),
                forall|k: int| 0 <= k < i ==> self@.blocks.contains(#[trigger] addresses@[k]),
            decreases addresses@.len() - i,
        {
            if !self.blocks.contains(addresses[i]) {
                return false;
            }
            i = i + 1;
        }
        true
    }

    fn is_pinned(&self, addr: u64, pinned: &Vec<(u64, u64)>) -> (r: bool)
        requires
            addr + self.block <= u64::MAX,
        ensures
            r <==> exists|j: int|
                0 <= j < pinned@.len() && #[trigger] pins(pinned@[j], addr, self.block),
    {
        let mut j: usize = 0;
        while j < pinned.len()
            invariant
                j <= pinned@.len(),
                addr + self.block <= u64::MAX,
                forall|k: int| 0 <= k < j ==> !#[trigger] pins(pinned@[k], addr, self.block),
            decreases pinned@.len() - j,
        {
            let (start, len): (u64, u64) = pinned[j];
            if start < addr + self.block && start.saturating_add(len) > addr {
                assert(pins(pinned@[j as int], addr, self.block));
                return true;
            }
            j = j + 1;
        }
        false
    }

    fn is_any_pinned(&self, addresses: &Vec<u64>, pinned: &Vec<(u64, u64)>) -> (r: bool)
        requires
            self@.shape(),
            forall|i: int| 0 <= i < addresses@.len() ==> self@.slot(#[trigger] addresses@[i]),
        ensures
            r == any_pinned(addresses@, pinned@, self.block),
    {
        let mut i: usize = 0;
        while i < addresses.len()
            invariant
                i <= addresses@.len(),
                self@.shape(),
                forall|i: int| 0 <= i < addresses@.len() ==> self@.slot(#[trigger] addresses@[i]),
                forall|k: int, j: int|
                    0 <= k < i && 0 <= j < pinned@.len() ==> !#[trigger] pins(
                        pinned@[j],
                        addresses@[k],
                        self.block,
                    ),
            decreases addresses@.len() - i,
        {
            assert(self@.slot(addresses@[i as int]));
            if self.is_pinned(addresses[i], pinned) {
                return true;
            }
            i = i + 1;
        }
        false
    }
}

/// The block size in bytes divides the alignment of the region.
proof fn lemma_granule(block_size_mib: u64)
    requires
        is_pow2(block_size_mib as int),
    ensures
        granule_mib(block_size_mib) % block_size_mib == 0,
        0 < block_size_mib,
{
    lemma_block_positive(block_size_mib);
    if block_size_mib < HOTPLUG_BLOCK_MIB {
        let k = choose|k: nat| block_size_mib == #[trigger] pow2(k);
        lemma2_to64();
        if k > 7 {
            lemma_pow2_strictly_increases(7, k);
        }
        let b = block_size_mib;
        assert(k == 0 || k == 1 || k == 2 || k == 3 || k == 4 || k == 5 || k == 6 || k == 7);
        assert(b == 1 || b == 2 || b == 4 || b == 8 || b == 16 || b == 32 || b == 64);
        assert(128u64 % b == 0) by (nonlinear_arith)
            requires
                b == 1 || b == 2 || b == 4 || b == 8 || b == 16 || b == 32 || b == 64,
        ;
    } else {
        assert(block_size_mib % block_size_mib == 0) by (nonlinear_arith)
            requires
                block_size_mib > 0,
        ;
    }
}

/// A multiple of a multiple is a multiple.
/// What is aligned to the granule is aligned to both, a memory block of the
/// guest and a block of the device.
pub(crate) proof fn lemma_granules(block: u64, start: u64)
    requires
        is_pow2(block as int),
        block * MIB <= u64::MAX,
    ensures
        start % (granule_mib(block) * MIB) as u64 == 0 <==> start % (128 * MIB) as u64 == 0 && start
            % (block * MIB) as u64 == 0,
{
    let g = granule_mib(block) as int;
    let s = start as int;
    lemma_granule(block);
    lemma_scaled(g, block as int);
    assert(g % 128 == 0) by {
        if block >= 128 {
            let k = choose|k: nat| block == #[trigger] pow2(k);
            lemma2_to64();
            if k < 7 {
                lemma_pow2_strictly_increases(k, 7);
            }
            vstd::arithmetic::power2::lemma_pow2_adds(7, (k - 7) as nat);
            let p = pow2((k - 7) as nat);
            vstd::arithmetic::div_mod::lemma_mod_multiples_basic(p as int, 128);
            assert(128 * p == p * 128);
        }
    }
    lemma_scaled(g, 128);
    if s % (g * MIB) == 0 {
        lemma_mod_chain(s, g * MIB, block * MIB);
        lemma_mod_chain(s, g * MIB, 128 * MIB);
    }
}

proof fn lemma_mod_chain(x: int, big: int, small: int)
    requires
        0 < small,
        0 < big,
        x % big == 0,
        big % small == 0,
    ensures
        x % small == 0,
{
    let p = x / big;
    let q = big / small;
    vstd::arithmetic::div_mod::lemma_fundamental_div_mod(x, big);
    vstd::arithmetic::div_mod::lemma_fundamental_div_mod(big, small);
    assert(x == (p * q) * small) by (nonlinear_arith)
        requires
            x == big * p,
            big == small * q,
    ;
    vstd::arithmetic::div_mod::lemma_mod_multiples_basic(p * q, small);
}

/// The same ratio in bytes.
proof fn lemma_scaled(a: int, b: int)
    requires
        0 < b,
        0 <= a,
        a % b == 0,
    ensures
        (a * MIB) % (b * MIB) == 0,
        0 < b * MIB,
        (b * MIB) % (MIB as int) == 0,
{
    let q = a / b;
    vstd::arithmetic::div_mod::lemma_fundamental_div_mod(a, b);
    assert(a * MIB == q * (b * MIB)) by (nonlinear_arith)
        requires
            a == b * q,
    ;
    vstd::arithmetic::div_mod::lemma_mod_multiples_basic(q, b * MIB);
    vstd::arithmetic::div_mod::lemma_mod_multiples_basic(b, MIB as int);
}

/// Whole blocks are whole MiB.
pub(crate) proof fn lemma_plugged_mib(d: MemView)
    requires
        d.shape(),
    ensures
        d.blocks.len() * d.block <= d.capacity,
        (d.blocks.len() * d.block) % (MIB as int) == 0,
        d.blocks.len() <= d.capacity / MIB,
{
    plugged_never_exceeds_capacity(d);
    let n = d.blocks.len() as int;
    let q = d.block as int / MIB as int;
    vstd::arithmetic::div_mod::lemma_fundamental_div_mod(d.block as int, MIB as int);
    assert(n * d.block == (n * q) * MIB) by (nonlinear_arith)
        requires
            d.block == MIB * q,
    ;
    vstd::arithmetic::div_mod::lemma_mod_multiples_basic(n * q, MIB as int);
    assert(q >= 1);
    assert(n * MIB <= n * d.block) by (nonlinear_arith)
        requires
            MIB <= d.block,
            0 <= n,
    ;
}

/// A new device of these sizes, or why there is none.
pub open spec fn made(region_size_mib: u64, block_size_mib: u64) -> Result<MemView, MemoryError> {
    if !is_pow2(block_size_mib as int) {
        Err(MemoryError::InvalidBlockSize { mib: block_size_mib })
    } else if region_size_mib == 0 || region_size_mib % granule_mib(block_size_mib) != 0 {
        Err(MemoryError::InvalidRegionSize { mib: region_size_mib })
    } else if region_size_mib * MIB > u64::MAX {
        Err(MemoryError::CapacityOverflow { mib: region_size_mib })
    } else if block_size_mib * MIB > usize::MAX {
        Err(MemoryError::CapacityOverflow { mib: block_size_mib })
    } else {
        Ok(
            MemView {
                start: 0,
                capacity: (region_size_mib * MIB) as u64,
                block: (block_size_mib * MIB) as u64,
                requested: 0,
                plugged: 0,
                generation: 0,
                ready: false,
                blocks: Set::empty(),
                table: Map::empty(),
                retained: Seq::empty(),
            },
        )
    }
}

/// How the first address of a region in blocks of this size is aligned.
pub open spec fn alignment_of(block: u64) -> u64 {
    if block < HOTPLUG_BLOCK_MIB * MIB {
        (HOTPLUG_BLOCK_MIB * MIB) as u64
    } else {
        block
    }
}

impl VirtioMem {
    /// A device of `region_size_mib` in blocks of `block_size_mib`, which must
    /// be a power of two. The region must be a positive multiple of both the
    /// block and a guest's own memory block.
    pub fn new(region_size_mib: u64, block_size_mib: u64) -> (r: Result<Self, MemoryError>)
        ensures
            r is Ok <==> sizes_ok(region_size_mib, block_size_mib),
            r matches Ok(d) ==> d.sound() && made(region_size_mib, block_size_mib) == Ok::<
                MemView,
                MemoryError,
            >(d@),
            r matches Err(e) ==> made(region_size_mib, block_size_mib) == Err::<
                MemView,
                MemoryError,
            >(e),
    {
        if !is_power_of_two(block_size_mib) {
            return Err(MemoryError::InvalidBlockSize { mib: block_size_mib });
        }
        let granule: u64 = if block_size_mib < HOTPLUG_BLOCK_MIB {
            HOTPLUG_BLOCK_MIB
        } else {
            block_size_mib
        };
        if region_size_mib == 0 || region_size_mib % granule != 0 {
            return Err(MemoryError::InvalidRegionSize { mib: region_size_mib });
        }
        let capacity: u64 = match mib_bytes(region_size_mib) {
            Ok(capacity) => capacity,
            Err(e) => {
                return Err(e);
            },
        };
        proof {
            lemma_granule(block_size_mib);
            lemma_mod_chain(region_size_mib as int, granule as int, block_size_mib as int);
            lemma_scaled(region_size_mib as int, block_size_mib as int);
            assert(block_size_mib <= region_size_mib) by (nonlinear_arith)
                requires
                    region_size_mib > 0,
                    block_size_mib > 0,
                    region_size_mib % block_size_mib == 0,
            ;
        }
        let block: u64 = block_size_mib * MIB;
        if block > usize::MAX as u64 {
            return Err(MemoryError::CapacityOverflow { mib: block_size_mib });
        }
        let d: VirtioMem = VirtioMem {
            start: 0,
            capacity,
            block,
            requested: 0,
            plugged: 0,
            generation: 0,
            ready: false,
            blocks: Blocks::new(block),
            retained: Vec::new(),
        };
        proof {
            assert(0int % (block as int) == 0) by (nonlinear_arith)
                requires
                    block > 0,
            ;
            assert(0 * block == 0) by (nonlinear_arith);
            assert(pieces(d.retained@) =~= Seq::empty());
        }
        Ok(d)
    }

    /// The control state of the device before anyone has asked for memory.
    pub fn control(&self) -> (r: MemoryControl)
        requires
            exists|region: u64, block: u64| #[trigger]
                sizes_ok(region, block) && self.capacity == region * MIB && self.block == block
                    * MIB,
        ensures
            r@ == (MemoryStatus {
                region_size_mib: self.capacity / MIB,
                block_size_mib: self.block / MIB,
                requested_size_mib: 0,
                plugged_size_mib: 0,
                driver_ready: false,
                lifecycle: MemoryLifecycle::Created,
            }),
            r@.wf(),
    {
        proof {
            let (region, block) = choose|region: u64, block: u64| #[trigger]
                sizes_ok(region, block) && self.capacity == region * MIB && self.block == block
                    * MIB;
            assert(self.capacity / MIB == region && self.block / MIB == block);
        }
        MemoryControl::new(self.capacity / MIB, self.block / MIB)
    }

    /// Alignment of the region's first address, in bytes.
    pub fn alignment(&self) -> (r: u64)
        ensures
            r == alignment_of(self.block),
    {
        if self.block < HOTPLUG_BLOCK_MIB * MIB {
            HOTPLUG_BLOCK_MIB * MIB
        } else {
            self.block
        }
    }

    /// Puts the region at `start`, and takes over the target asked for so far.
    /// Nothing may be plugged yet.
    pub fn attach_at(&mut self, start: u64, control: &MemoryControl) -> (r: Result<(), MemoryError>)
        requires
            old(self).sound(),
            old(self)@.agrees(control@),
            old(self)@.blocks == Set::<u64>::empty(),
            old(self)@.retained.len() == 0,
        ensures
            final(self).sound(),
            final(self)@.agrees(control@),
            (final(self)@, r) == attached(old(self)@, start, control@),
    {
        let align: u64 = self.alignment();
        proof {
            let b = control@.block_size_mib;
            lemma_granule(b);
            lemma_scaled(granule_mib(b) as int, b as int);
            assert(align == granule_mib(b) * MIB);
        }
        if start % align != 0 {
            return Err(MemoryError::HotplugAlignment { address: start });
        }
        if start.checked_add(self.capacity).is_none() {
            return Err(MemoryError::HotplugOverflow);
        }
        proof {
            lemma_mod_chain(start as int, align as int, self.block as int);
            assert(control@.requested_size_mib * MIB <= control@.region_size_mib * MIB);
        }
        let requested: u64 = control.status().requested_size_mib * MIB;
        self.start = start;
        self.requested = requested;
        Ok(())
    }

    /// Serves one request of the driver.
    pub fn request<M: Mapper>(
        &mut self,
        req: &[u8],
        control: &mut MemoryControl,
        mapper: &mut M,
        view: &mut Guest,
        pinned: &Vec<(u64, u64)>,
    ) -> (r: Result<(u16, u16), MemoryError>)
        requires
            req@.len() == 24,
            old(self).sound(),
            old(self)@.agrees(old(control)@),
            old(self)@.mirrored(old(view)@),
        ensures
            final(self)@.shape(),
            final(self).sound(),
            final(self)@.agrees(final(control)@),
            final(self)@.mirrored(final(view)@),
            request_rel(
                snapshot(old(self)@, old(control)@, old(mapper).calls(), old(view)@),
                req@,
                pinned@,
                snapshot(final(self)@, final(control)@, final(mapper).calls(), final(view)@),
                r,
            ),
            in_step(old(mapper).calls(), old(view)@) && !unsettled(r) ==> in_step(
                final(mapper).calls(),
                final(view)@,
            ),
            outside(final(self)@, final(view)@) == outside(old(self)@, old(view)@),
    {
        let ghost d0 = self@;
        let ghost s0 = snapshot(self@, control@, mapper.calls(), view@);
        view.regions_are_ordered();
        let r: Result<(u16, u16), MemoryError> = self.fulfil(req, control, mapper, view, pinned);
        proof {
            let s1 = snapshot(self@, control@, mapper.calls(), view@);
            if in_step(s0.maps, s0.memory) && !unsettled(r) {
                requests_keep_memory_in_step(s0, req@, pinned@, s1, r);
            }
            requests_leave_other_memory(s0, req@, pinned@, s1, r);
        }
        r
    }

    /// Decides what is asked for, and does it.
    fn fulfil<M: Mapper>(
        &mut self,
        req: &[u8],
        control: &mut MemoryControl,
        mapper: &mut M,
        view: &mut Guest,
        pinned: &Vec<(u64, u64)>,
    ) -> (r: Result<(u16, u16), MemoryError>)
        requires
            req@.len() == 24,
            old(self).sound(),
            old(self)@.agrees(old(control)@),
            old(self)@.mirrored(old(view)@),
        ensures
            final(self).sound(),
            final(self)@.agrees(final(control)@),
            final(self)@.mirrored(final(view)@),
            request_rel(
                snapshot(old(self)@, old(control)@, old(mapper).calls(), old(view)@),
                req@,
                pinned@,
                snapshot(final(self)@, final(control)@, final(mapper).calls(), final(view)@),
                r,
            ),
    {
        let ghost d0 = self@;
        let ghost s0 = snapshot(self@, control@, mapper.calls(), view@);
        let kind: u16 = get_le16(req, 0);
        let addr: u64 = get_le64(req, 8);
        let count: u64 = get_le16(req, 16) as u64;
        if kind > 3 {
            return Ok((3, 0));
        }
        if kind != 2 {
            if count == 0 || addr % self.block != 0 || addr < self.start {
                return Ok((3, 0));
            }
            let end: u64 = match count.checked_mul(self.block) {
                None => {
                    return Ok((3, 0));
                },
                Some(size) => match addr.checked_add(size) {
                    None => {
                        return Ok((3, 0));
                    },
                    Some(end) => end,
                },
            };
            if end > self.start + self.capacity {
                return Ok((3, 0));
            }
            assert(in_region(d0, addr, count as int));
        }
        let addresses: Vec<u64> = if kind == 2 {
            self.addresses()
        } else {
            self.row(addr, count)
        };
        proof {
            if kind == 2 {
                unplug_all_leaves_nothing(d0);
            } else {
                lemma_row(d0, addr, count as int);
            }
        }
        let any: bool = self.is_any_plugged(&addresses);
        let all: bool = self.is_all_plugged(&addresses);
        if kind == 3 {
            return Ok(
                (
                    0,
                    if !any {
                        1
                    } else if all {
                        0
                    } else {
                        2
                    },
                ),
            );
        }
        if (kind == 0 && any) || (kind == 1 && !all) {
            return Ok((3, 0));
        }
        let status: MemoryStatus = control.status();
        proof {
            lemma_block_positive(status.block_size_mib);
            lemma_plugged_mib(d0);
        }
        if kind == 0 && self.blocks.count() as u64 + count > status.requested_size_mib
            / status.block_size_mib {
            return Ok((1, 0));
        }
        if kind != 0 && self.is_any_pinned(&addresses, pinned) {
            return Ok((2, 0));
        }
        assert(changeable(d0, addresses@, kind == 0));
        let ghost v = decide(d0, s0.status, req@, pinned@);
        assert(v == (Verdict::Change { addresses: addresses@, plug: kind == 0 }));
        let c: Result<bool, MemoryError> = self.change(
            &addresses,
            kind == 0,
            mapper,
            view,
            Ghost(control@),
        );
        let ghost s = snapshot(self@, control@, mapper.calls(), view@);
        assert(change_rel(s0, v->addresses, v->plug, s, c));
        match c {
            Err(e) => {
                return Err(e);
            },
            Ok(done) => {
                if !done {
                    return Ok((2, 0));
                }
            },
        }
        proof {
            lemma_plugged_mib(self@);
        }
        let held: u64 = self.blocks.count() as u64;
        self.plugged = held * self.block;
        self.generation = self.generation.wrapping_add(1);
        control.set_plugged_mib(self.plugged / MIB);
        Ok((0, 0))
    }
}

/// The addresses of all blocks that may be mapped: the plugged ones, and those
/// that a failed rollback left.
pub open spec fn held(d: MemView) -> Set<u64> {
    Set::new(
        |a: u64|
            d.blocks.contains(a) || exists|i: int|
                0 <= i < d.retained.len() && (#[trigger] d.retained[i]).range.0 == a,
    )
}

/// Those addresses in order.
pub open spec fn held_blocks(d: MemView) -> Seq<u64> {
    all_blocks(MemView { blocks: held(d), ..d })
}

/// What a failed rollback left at `a`, the latest if that happened twice.
pub open spec fn left_at(retained: Seq<Piece>, a: u64) -> Option<Allocation>
    decreases retained.len(),
{
    if retained.len() == 0 {
        None
    } else if retained.last().range.0 == a {
        Some(retained.last().allocation)
    } else {
        left_at(retained.drop_last(), a)
    }
}

/// The block at `a` that may be mapped: what a failed rollback left, else the
/// plugged one.
pub open spec fn held_piece(d: MemView, a: u64) -> Piece {
    Piece {
        range: (a, d.block),
        allocation: match left_at(d.retained, a) {
            Some(allocation) => allocation,
            None => d.table[a],
        },
    }
}

/// All blocks that may be mapped, in address order.
pub open spec fn held_pieces(d: MemView) -> Seq<Piece> {
    pieces_at(d, held_blocks(d))
}

/// The blocks at `addresses` that may be mapped.
pub open spec fn pieces_at(d: MemView, addresses: Seq<u64>) -> Seq<Piece> {
    addresses.map_values(|a: u64| held_piece(d, a))
}

/// The calls that unmap each of `list`, with their answers.
pub open spec fn unmaps(list: Seq<Piece>, answers: Seq<Result<(), MemoryError>>) -> Seq<VmCall> {
    Seq::new(answers.len(), |i: int| asked(list[i], false, answers[i]))
}

proof fn lemma_left_at(retained: Seq<Piece>, a: u64)
    ensures
        left_at(retained, a) is Some <==> exists|i: int|
            0 <= i < retained.len() && (#[trigger] retained[i]).range.0 == a,
    decreases retained.len(),
{
    if retained.len() > 0 {
        let rest = retained.drop_last();
        lemma_left_at(rest, a);
        if retained.last().range.0 != a {
            if left_at(retained, a) is Some {
                let i = choose|i: int| 0 <= i < rest.len() && (#[trigger] rest[i]).range.0 == a;
                assert(retained[i].range.0 == a);
            }
            if exists|i: int| 0 <= i < retained.len() && (#[trigger] retained[i]).range.0 == a {
                let i = choose|i: int|
                    0 <= i < retained.len() && (#[trigger] retained[i]).range.0 == a;
                assert(rest[i].range.0 == a);
            }
        }
    }
}

/// The failures among `answers`, in order.
pub open spec fn failures(answers: Seq<Result<(), MemoryError>>) -> Seq<MemoryError>
    decreases answers.len(),
{
    if answers.len() == 0 {
        Seq::empty()
    } else {
        match answers.last() {
            Ok(()) => failures(answers.drop_last()),
            Err(e) => failures(answers.drop_last()).push(e),
        }
    }
}

impl VirtioMem {
    /// The device is about to run.
    pub fn start(&self, control: &mut MemoryControl)
        ensures
            final(control)@ == (MemoryStatus {
                lifecycle: MemoryLifecycle::Running,
                ..old(control)@
            }),
    {
        control.start();
    }

    /// Another handle to the block at `addr`, plugged or retained.
    fn handle(&self, addr: u64) -> (r: Option<Region>)
        requires
            self.sound(),
        ensures
            r is Some <==> held(self@).contains(addr),
            r matches Some(region) ==> region.piece() == held_piece(self@, addr),
    {
        let ghost all = self@.retained;
        let mut i: usize = self.retained.len();
        proof {
            lemma_left_at(all, addr);
            assert(all.take(i as int) =~= all);
        }
        while i > 0
            invariant
                i <= self.retained@.len(),
                self.sound(),
                all == self@.retained,
                left_at(all.take(i as int), addr) == left_at(all, addr),
            decreases i,
        {
            let ghost some = all.take(i as int);
            i = i - 1;
            assert(all[i as int] == self.retained@[i as int].piece());
            assert(some.last() == all[i as int]);
            assert(some.drop_last() =~= all.take(i as int));
            if self.retained[i].start() == addr {
                return Some(self.retained[i].share());
            }
        }
        assert(all.take(0) =~= Seq::empty());
        self.blocks.share(addr)
    }

    /// Unmaps whatever may be mapped, each block once. vCPUs must be joined
    /// first. The allocations live on until the device is dropped, so drop it
    /// only after the VM is destroyed. Returns the failures.
    pub fn stop<M: Mapper>(&self, control: &mut MemoryControl, mapper: &mut M) -> (r: Vec<
        MemoryError,
    >)
        requires
            self.sound(),
        ensures
            final(control)@ == (MemoryStatus {
                lifecycle: MemoryLifecycle::Stopped,
                driver_ready: false,
                ..old(control)@
            }),
            exists|answers: Seq<Result<(), MemoryError>>|
                {
                    &&& #[trigger] through(answers)
                    &&& answers.len() == held_blocks(self@).len()
                    &&& final(mapper).calls() == old(mapper).calls() + unmaps(
                        held_pieces(self@),
                        answers,
                    )
                    &&& r@ == failures(answers)
                },
    {
        control.stop();
        let mut errors: Vec<MemoryError> = Vec::new();
        let ghost d = MemView { blocks: held(self@), ..self@ };
        let ghost before = mapper.calls();
        let ghost mut answers: Seq<Result<(), MemoryError>> = Seq::empty();
        let places: u64 = self.capacity / self.block;
        let mut n: u64 = 0;
        let mut at: u64 = self.start;
        proof {
            vstd::arithmetic::div_mod::lemma_fundamental_div_mod(
                self.capacity as int,
                self.block as int,
            );
            assert(0 * self.block == 0) by (nonlinear_arith);
            let q = self.capacity as int / self.block as int;
            assert(q * self.block == self.block * q) by (nonlinear_arith);
            assert(before + unmaps(pieces_at(self@, listed(d, 0)), answers) =~= before);
        }
        while n < places
            invariant
                n <= places,
                self.sound(),
                d == (MemView { blocks: held(self@), ..self@ }),
                places * self.block == self.capacity,
                at == self.start + n * self.block,
                answers.len() == listed(d, n as nat).len(),
                mapper.calls() == before + unmaps(pieces_at(self@, listed(d, n as nat)), answers),
                errors@ == failures(answers),
            decreases places - n,
        {
            proof {
                let s = self.block as int;
                assert((n + 1) * s == n * s + s) by (nonlinear_arith);
                assert((n + 1) * s <= places * s) by (nonlinear_arith)
                    requires
                        n + 1 <= places,
                        s > 0,
                ;
            }
            let ghost list = listed(d, n as nat);
            let ghost seen = answers;
            match self.handle(at) {
                None => {},
                Some(region) => {
                    let result: Result<(), MemoryError> = mapper.unmap(&region);
                    proof {
                        answers = seen.push(result);
                        assert(answers.drop_last() =~= seen);
                        assert(listed(d, (n + 1) as nat) == list.push(at));
                        let more = pieces_at(self@, list.push(at));
                        assert(more =~= pieces_at(self@, list).push(held_piece(self@, at)));
                        assert(unmaps(more, answers) =~= unmaps(pieces_at(self@, list), seen).push(
                            asked(held_piece(self@, at), false, result),
                        ));
                        assert(mapper.calls() =~= before + unmaps(more, answers));
                    }
                    match result {
                        Ok(()) => {},
                        Err(e) => {
                            errors.push(e);
                        },
                    }
                },
            }
            at = at + self.block;
            n = n + 1;
        }
        assert(through(answers));
        errors
    }

    /// Takes over whether the driver is up and what was asked for. Tells
    /// whether the target changed.
    pub fn sync_target(&mut self, ready: bool, control: &mut MemoryControl) -> (r: bool)
        requires
            old(self).sound(),
            old(self)@.agrees(old(control)@),
        ensures
            final(self).sound(),
            final(self)@.agrees(final(control)@),
            final(control)@ == (MemoryStatus { driver_ready: ready, ..old(control)@ }),
            (final(self)@, r) == synced(old(self)@, old(control)@, ready),
    {
        let ghost before = self@;
        control.set_driver_ready(ready);
        self.ready = ready;
        assert(self@ =~= (MemView { ready, ..before }));
        assert forall|a: u64| #[trigger] self@.blocks.contains(a) implies self@.slot(a) by {
            assert(before.blocks.contains(a));
        }
        assert(control@.requested_size_mib * MIB <= control@.region_size_mib * MIB);
        let requested: u64 = control.status().requested_size_mib * MIB;
        if requested == self.requested {
            return false;
        }
        self.requested = requested;
        self.generation = self.generation.wrapping_add(1);
        assert(self@ =~= (MemView {
            ready,
            requested,
            generation: before.generation.wrapping_add(1),
            ..before
        }));
        assert forall|a: u64| #[trigger] self@.blocks.contains(a) implies self@.slot(a) by {
            assert(before.blocks.contains(a));
        }
        true
    }

    /// Tells the controllers whether the driver is up, after it may have reset
    /// the device.
    pub fn publish(&self, control: &mut MemoryControl)
        ensures
            final(control)@ == (MemoryStatus { driver_ready: self.ready, ..old(control)@ }),
    {
        control.set_driver_ready(self.ready);
    }

    /// Gives up a device that was never run.
    pub fn discard(self, control: &mut MemoryControl)
        ensures
            final(control)@ == (MemoryStatus {
                lifecycle: MemoryLifecycle::Stopped,
                driver_ready: false,
                ..old(control)@
            }),
    {
        control.stop();
    }
}

/// The writable buffers of `desc`, or the readable ones.
pub open spec fn part(desc: Seq<Descriptor>, writable: bool) -> Seq<Descriptor> {
    desc.filter(|d: Descriptor| d.writable() == writable)
}

/// A readable buffer follows a writable one.
pub open spec fn out_of_order(desc: Seq<Descriptor>) -> bool {
    exists|i: int, j: int|
        0 <= i < j < desc.len() && (#[trigger] desc[i]).writable() && !(
        #[trigger] desc[j]).writable()
}

/// A length that may be too large to count.
pub open spec fn clipped(n: int) -> usize {
    if n <= usize::MAX {
        n as usize
    } else {
        usize::MAX
    }
}

/// Why a chain is no request.
pub open spec fn no_request(desc: Seq<Descriptor>) -> Option<MemoryError> {
    let read = clipped(length(part(desc, false)));
    let write = clipped(length(part(desc, true)));
    if read != 24 || write < 10 {
        Some(MemoryError::InvalidVirtioMemRequestBuffers { read, write })
    } else if out_of_order(desc) {
        Some(MemoryError::ReadableDescriptorAfterWritableDescriptor)
    } else {
        None
    }
}

/// The ranges of the buffers of `desc`.
pub open spec fn own_pins(desc: Seq<Descriptor>) -> Seq<(u64, u64)> {
    desc.map_values(|d: Descriptor| (d.addr, d.len as u64))
}

/// The bytes of an answer.
pub open spec fn answer(code: u16, state: u16) -> Seq<u8> {
    le16_bytes(code) + seq![0u8, 0, 0, 0, 0, 0] + le16_bytes(state)
}

impl Machine {
    /// The same with another memory.
    pub open spec fn remember(self, memory: Memory) -> Machine {
        Machine { memory, ..self }
    }
}

/// Serving the chain that is next: `false` means that there is none.
pub open spec fn turn_rel(
    s0: Machine,
    q0: QueuesView,
    pinned: Seq<(u64, u64)>,
    s1: Machine,
    q1: QueuesView,
    r: Result<bool, DeviceError>,
) -> bool {
    exists|q: QueuesView, m: Memory, c: Result<Option<(u16, Seq<Descriptor>)>, DeviceError>|
        #[trigger] pop_rel(q0, 0, s0.memory, q, m, c) && match c {
            Err(e) => s1 == s0.remember(m) && q1 == q && r == Err::<bool, DeviceError>(e),
            Ok(None) => s1 == s0.remember(m) && q1 == q && r == Ok::<bool, DeviceError>(false),
            Ok(Some(chain)) => match no_request(chain.1) {
                Some(e) => s1 == s0.remember(m) && q1 == q && r == Err::<bool, DeviceError>(
                    DeviceError::Memory(e),
                ),
                None => exists|req: Seq<u8>, s: Machine, a: Result<(u16, u16), MemoryError>|
                    #[trigger] through((req, s, a)) && served(
                        s0.remember(m),
                        q,
                        pinned,
                        chain,
                        req,
                        s,
                        a,
                        s1,
                        q1,
                        r,
                    ),
            },
        }
}

/// Serving the chain `chain` that holds the request `req`, which led to the
/// state `s` and the answer `a`.
pub open spec fn served(
    s0: Machine,
    q: QueuesView,
    pinned: Seq<(u64, u64)>,
    chain: (u16, Seq<Descriptor>),
    req: Seq<u8>,
    s: Machine,
    a: Result<(u16, u16), MemoryError>,
    s1: Machine,
    q1: QueuesView,
    r: Result<bool, DeviceError>,
) -> bool {
    let input = span(spread(s0.memory.regions, part(chain.1, false)), 0, 24);
    let output = span(spread(s.memory.regions, part(chain.1, true)), 0, 10);
    &&& req.len() == 24
    &&& request_rel(
        s0.remember(s0.memory.after_all(reads(input, req))),
        req,
        pinned + own_pins(chain.1),
        s,
        a,
    )
    &&& match a {
        Err(e) => s1 == s && q1 == q && r == Err::<bool, DeviceError>(DeviceError::Memory(e)),
        Ok((code, state)) => exists|done: Result<(), DeviceError>|
            {
                &&& #[trigger] complete_rel(
                    q,
                    0,
                    s.memory.after_all(writes(output, answer(code, state))),
                    chain.0,
                    10,
                    q1,
                    s1.memory,
                    done,
                )
                &&& s1 == s.remember(s1.memory)
                &&& r == match done {
                    Ok(()) => Ok::<bool, DeviceError>(true),
                    Err(e) => Err(e),
                }
            },
    }
}

/// Serving up to `n` chains, until there is none or one fails.
pub open spec fn turns_rel(
    n: nat,
    s0: Machine,
    q0: QueuesView,
    pinned: Seq<(u64, u64)>,
    s1: Machine,
    q1: QueuesView,
    r: Result<bool, DeviceError>,
) -> bool
    decreases n,
{
    if n == 0 {
        s1 == s0 && q1 == q0 && r == Ok::<bool, DeviceError>(true)
    } else {
        exists|s: Machine, q: QueuesView, e: Result<bool, DeviceError>|
            {
                &&& #[trigger] through((s, q, e))
                &&& turns_rel((n - 1) as nat, s0, q0, pinned, s, q, e)
                &&& if e == Ok::<bool, DeviceError>(true) {
                    turn_rel(s, q, pinned, s1, q1, r)
                } else {
                    s1 == s && q1 == q && r == e
                }
            }
    }
}

proof fn lemma_turns_stop(
    k: nat,
    n: nat,
    s0: Machine,
    q0: QueuesView,
    pinned: Seq<(u64, u64)>,
    s1: Machine,
    q1: QueuesView,
    r: Result<bool, DeviceError>,
)
    requires
        k <= n,
        r != Ok::<bool, DeviceError>(true),
        turns_rel(k, s0, q0, pinned, s1, q1, r),
    ensures
        turns_rel(n, s0, q0, pinned, s1, q1, r),
    decreases n - k,
{
    if k < n {
        assert(through((s1, q1, r)));
        assert(turns_rel(k + 1, s0, q0, pinned, s1, q1, r));
        lemma_turns_stop(k + 1, n, s0, q0, pinned, s1, q1, r);
    }
}

/// What is in the view of guest memory after a change: the regions before, and
/// the plugged blocks, or the regions before without the unplugged ones.
pub(crate) proof fn lemma_changed(d: MemView, regions: Seq<(u64, u64)>, addresses: Seq<u64>, plug: bool)
    requires
        d.shape(),
        d.exact(regions),
        ordered(regions),
        changeable(d, addresses, plug),
    ensures
        ordered(changed(regions, addresses, d.block, plug)),
        (MemView { blocks: toggled(d.blocks, addresses, plug), ..d }).exact(
            changed(regions, addresses, d.block, plug),
        ),
        forall|x: (u64, u64)| #[trigger]
            changed(regions, addresses, d.block, plug).contains(x) <==> if plug {
                regions.contains(x) || (x.1 == d.block && addresses.contains(x.0))
            } else {
                regions.contains(x) && !addresses.contains(x.0)
            },
    decreases addresses.len(),
{
    if addresses.len() > 0 {
        let done = addresses.drop_last();
        let last = addresses.last();
        assert(changeable(d, done, plug)) by {
            assert forall|i: int| 0 <= i < done.len() implies d.slot(#[trigger] done[i])
                && d.blocks.contains(done[i]) != plug by {
                assert(done[i] == addresses[i]);
            }
            assert forall|i: int, j: int| 0 <= i < j < done.len() implies #[trigger] done[i]
                != #[trigger] done[j] by {
                assert(addresses[i] != addresses[j]);
            }
        }
        lemma_changed(d, regions, done, plug);
        lemma_toggled(d.blocks, done, plug);
        let here = changed(regions, done, d.block, plug);
        let e = MemView { blocks: toggled(d.blocks, done, plug), ..d };
        assert(addresses[addresses.len() - 1] == last);
        assert(!done.contains(last)) by {
            if done.contains(last) {
                let k = choose|k: int| 0 <= k < done.len() && done[k] == last;
                assert(addresses[k] != addresses[addresses.len() - 1]);
            }
        }
        assert(e.shape()) by {
            assert forall|a: u64| #[trigger] e.blocks.contains(a) implies e.slot(a) by {
                if done.contains(a) {
                    let k = choose|k: int| 0 <= k < done.len() && done[k] == a;
                    assert(d.slot(done[k]));
                } else {
                    assert(d.blocks.contains(a));
                    assert(d.slot(a));
                }
            }
        }
        assert(d.slot(last));
        assert(e.slot(last));
        lemma_exact_step(e, here, last, plug);
        let all = changed(regions, addresses, d.block, plug);
        if plug {
            lemma_inserted(here, (last, d.block));
            assert(all == inserted(here, (last, d.block)));
        } else {
            lemma_filter_ordered(here, |x: (u64, u64)| x.0 != last);
            assert(all == here.filter(|x: (u64, u64)| x.0 != last));
        }
        assert forall|x: (u64, u64)| #[trigger]
            all.contains(x) <==> (if plug {
                regions.contains(x) || (x.1 == d.block && addresses.contains(x.0))
            } else {
                regions.contains(x) && !addresses.contains(x.0)
            }) by {
            assert(here.contains(x) <==> (if plug {
                regions.contains(x) || (x.1 == d.block && done.contains(x.0))
            } else {
                regions.contains(x) && !done.contains(x.0)
            }));
            assert(addresses.contains(x.0) <==> done.contains(x.0) || x.0 == last) by {
                if addresses.contains(x.0) {
                    let k = choose|k: int| 0 <= k < addresses.len() && addresses[k] == x.0;
                    if k < done.len() {
                        assert(done[k] == x.0);
                    }
                }
                if done.contains(x.0) {
                    let k = choose|k: int| 0 <= k < done.len() && done[k] == x.0;
                    assert(addresses[k] == x.0);
                }
            }
        }
    }
}

/// A range that is pinned stays mapped, whatever request is served.
pub proof fn pinned_memory_stays_mapped(
    s0: Machine,
    req: Seq<u8>,
    pinned: Seq<(u64, u64)>,
    s1: Machine,
    r: Result<(u16, u16), MemoryError>,
    p: int,
)
    requires
        s0.device.shape(),
        s0.device.exact(s0.memory.regions),
        ordered(s0.memory.regions),
        req.len() == 24,
        request_rel(s0, req, pinned, s1, r),
        0 <= p < pinned.len(),
        covers(s0.memory.regions, pinned[p].0 as int, pinned[p].1 as int),
    ensures
        covers(s1.memory.regions, pinned[p].0 as int, pinned[p].1 as int),
{
    let d = s0.device;
    let regions = s0.memory.regions;
    match decide(d, s0.status, req, pinned) {
        Verdict::Answer { code, state } => {},
        Verdict::Change { addresses, plug } => {
            let kind = le16(req, 0);
            let addr = le64(req, 8) as u64;
            let count = le16(req, 16);
            if kind == 2 {
                unplug_all_leaves_nothing(d);
            } else {
                lemma_row(d, addr, count);
            }
            assert(changeable(d, addresses, plug));
            lemma_changed(d, regions, addresses, plug);
            let after = changed(regions, addresses, d.block, plug);
            assert(s1.memory.regions == regions || s1.memory.regions == after);
            assert forall|a: int| pinned[p].0 <= a < pinned[p].0 + pinned[p].1 implies #[trigger]
                mapped(after, a) by {
                assert(mapped(regions, a));
                let i = choose|i: int| 0 <= i < regions.len() && #[trigger] holds(regions[i], a);
                let x = regions[i];
                assert(regions.contains(x));
                if !plug && addresses.contains(x.0) {
                    let k = choose|k: int| 0 <= k < addresses.len() && addresses[k] == x.0;
                    assert(d.slot(addresses[k]));
                    assert(x.0 < d.start + d.capacity && d.start < x.0 + x.1);
                    assert(x.1 == d.block);
                    assert(pins(pinned[p], addresses[k], d.block));
                    assert(false);
                }
                assert(after.contains(x));
                let j = choose|j: int| 0 <= j < after.len() && after[j] == x;
                assert(holds(after[j], a));
            }
        },
    }
}

/// The allocations that are mapped after `calls`, each of which changed nothing
/// if it failed.
pub open spec fn standing(base: Set<Piece>, calls: Seq<VmCall>) -> Set<Piece>
    decreases calls.len(),
{
    if calls.len() == 0 {
        base
    } else {
        let rest = standing(base, calls.drop_last());
        match calls.last() {
            VmCall::Mapped { piece, result } => if result is Ok {
                rest.insert(piece)
            } else {
                rest
            },
            VmCall::Unmapped { piece, result } => if result is Ok {
                rest.remove(piece)
            } else {
                rest
            },
            _ => rest,
        }
    }
}

/// What is mapped for the guest is what its device models see: the same
/// allocations at the same addresses.
pub open spec fn in_step(maps: Seq<VmCall>, memory: Memory) -> bool {
    standing(Set::empty(), maps) == seen(memory)
}

/// A rollback failed: what is mapped is not known any more.
pub open spec fn adrift<T>(r: Result<T, DeviceError>) -> bool {
    r matches Err(DeviceError::Memory(e)) && e is RollbackFailed
}

pub(crate) proof fn lemma_standing_concat(base: Set<Piece>, a: Seq<VmCall>, b: Seq<VmCall>)
    ensures
        standing(base, a + b) == standing(standing(base, a), b),
    decreases b.len(),
{
    if b.len() == 0 {
        assert(a + b =~= a);
    } else {
        assert((a + b).drop_last() =~= a + b.drop_last());
        assert((a + b).last() == b.last());
        lemma_standing_concat(base, a, b.drop_last());
    }
}

pub(crate) proof fn lemma_granted(base: Set<Piece>, list: Seq<Piece>, map: bool)
    ensures
        forall|x: Piece| #[trigger]
            standing(base, granted(list, map)).contains(x) <==> if map {
                base.contains(x) || list.contains(x)
            } else {
                base.contains(x) && !list.contains(x)
            },
    decreases list.len(),
{
    let calls = granted(list, map);
    if list.len() > 0 {
        let rest = list.drop_last();
        assert(calls.drop_last() =~= granted(rest, map));
        assert(calls.last() == asked(list.last(), map, Ok(())));
        lemma_granted(base, rest, map);
        assert forall|x: Piece| #[trigger]
            standing(base, calls).contains(x) <==> (if map {
                base.contains(x) || list.contains(x)
            } else {
                base.contains(x) && !list.contains(x)
            }) by {
            lemma_last_or_rest(list, x);
            assert(standing(base, granted(rest, map)).contains(x) <==> (if map {
                base.contains(x) || rest.contains(x)
            } else {
                base.contains(x) && !rest.contains(x)
            }));
        }
    }
}

proof fn lemma_last_or_rest(list: Seq<Piece>, x: Piece)
    requires
        list.len() > 0,
    ensures
        list.contains(x) <==> list.drop_last().contains(x) || x == list.last(),
{
    let rest = list.drop_last();
    if list.contains(x) {
        let i = choose|i: int| 0 <= i < list.len() && list[i] == x;
        if i < rest.len() {
            assert(rest[i] == x);
        }
    }
    if rest.contains(x) {
        let i = choose|i: int| 0 <= i < rest.len() && rest[i] == x;
        assert(list[i] == x);
    }
    assert(list[list.len() - 1] == list.last());
}

pub(crate) proof fn lemma_no_error(answers: Seq<Result<(), MemoryError>>)
    requires
        first_error(answers) is None,
    ensures
        forall|i: int| 0 <= i < answers.len() ==> (#[trigger] answers[i]) is Ok,
    decreases answers.len(),
{
    if answers.len() > 0 {
        let rest = answers.drop_last();
        lemma_no_error(rest);
        assert forall|i: int| 0 <= i < answers.len() implies (#[trigger] answers[i]) is Ok by {
            if i < rest.len() {
                assert(rest[i] is Ok);
            }
        }
    }
}

proof fn lemma_undone(
    base: Set<Piece>,
    list: Seq<Piece>,
    map: bool,
    answers: Seq<Result<(), MemoryError>>,
)
    requires
        answers.len() <= list.len(),
        forall|i: int| 0 <= i < answers.len() ==> (#[trigger] answers[i]) is Ok,
    ensures
        forall|x: Piece| #[trigger]
            standing(base, undoing(list, map, answers)).contains(x) <==> if map {
                base.contains(x) && !list.skip(list.len() - answers.len()).contains(x)
            } else {
                base.contains(x) || list.skip(list.len() - answers.len()).contains(x)
            },
    decreases answers.len(),
{
    let calls = undoing(list, map, answers);
    let touched = list.skip(list.len() - answers.len());
    if answers.len() == 0 {
        assert(touched =~= Seq::empty());
    } else {
        let fewer = answers.drop_last();
        let first = list[list.len() - answers.len()];
        let less = list.skip(list.len() - fewer.len());
        assert forall|i: int| 0 <= i < fewer.len() implies (#[trigger] fewer[i]) is Ok by {
            assert(answers[i] is Ok);
        }
        lemma_undone(base, list, map, fewer);
        assert(calls.drop_last() =~= undoing(list, map, fewer));
        assert(answers[answers.len() - 1] is Ok);
        assert(calls.last() == asked(first, !map, answers.last()));
        assert forall|x: Piece| #[trigger]
            standing(base, calls).contains(x) <==> (if map {
                base.contains(x) && !touched.contains(x)
            } else {
                base.contains(x) || touched.contains(x)
            }) by {
            assert(touched.contains(x) <==> less.contains(x) || x == first) by {
                if touched.contains(x) {
                    let i = choose|i: int| 0 <= i < touched.len() && touched[i] == x;
                    if i > 0 {
                        assert(less[i - 1] == x);
                    }
                }
                if less.contains(x) {
                    let i = choose|i: int| 0 <= i < less.len() && less[i] == x;
                    assert(touched[i + 1] == x);
                }
                assert(touched[0] == first);
            }
            assert(standing(base, undoing(list, map, fewer)).contains(x) <==> (if map {
                base.contains(x) && !less.contains(x)
            } else {
                base.contains(x) || less.contains(x)
            }));
        }
    }
}

/// A change that fails and is rolled back leaves the same allocations mapped as
/// before, and nothing else changed.
pub proof fn rollback_restores_mappings(
    s0: Machine,
    addresses: Seq<u64>,
    plug: bool,
    s1: Machine,
    base: Set<Piece>,
)
    requires
        change_rel(s0, addresses, plug, s1, Ok(false)),
        forall|i: int|
            0 <= i < addresses.len() ==> if plug {
                forall|p: Piece| #[trigger]
                    standing(base, s0.maps).contains(p) ==> p.range.0 != #[trigger] addresses[i]
            } else {
                standing(base, s0.maps).contains(
                    Piece {
                        range: (#[trigger] addresses[i], s0.device.block),
                        allocation: s0.device.table[addresses[i]],
                    },
                )
            },
    ensures
        standing(base, s1.maps) == standing(base, s0.maps),
        s1.device == s0.device,
        s1.status == s0.status,
        s1.memory == s0.memory,
{
    let list = choose|list: Seq<Piece>| #[trigger]
        chosen(s0.device, addresses, plug, list) && list_rel(
            s0,
            addresses,
            list,
            plug,
            s1,
            Ok(false),
        );
    let (k, e, answers) = choose|k: int, e: MemoryError, answers: Seq<Result<(), MemoryError>>|
        {
            &&& #[trigger] failed_at(s0, list, plug, k, e, answers, s1.maps)
            &&& first_error(answers) is None
            &&& s1 == (Machine { maps: s1.maps, ..s0 })
        };
    let part = list.take(k);
    let a = granted(part, plug);
    let b = seq![asked(list[k], plug, Err(e))];
    let c = undoing(part, plug, answers);
    let before = standing(base, s0.maps);
    lemma_standing_concat(base, s0.maps + a + b, c);
    lemma_standing_concat(base, s0.maps + a, b);
    lemma_standing_concat(base, s0.maps, a);
    lemma_granted(before, part, plug);
    let done = standing(before, a);
    assert(b.drop_last() =~= Seq::empty());
    assert(standing(done, b) == done) by {
        reveal_with_fuel(standing, 2);
    }
    lemma_no_error(answers);
    lemma_undone(done, part, plug, answers);
    assert(part.skip(0) =~= part);
    assert forall|x: Piece| standing(base, s1.maps).contains(x) == before.contains(x) by {
        if part.contains(x) {
            let i = choose|i: int| 0 <= i < part.len() && part[i] == x;
            assert(list[i] == x);
            assert(x.range == (addresses[i], s0.device.block));
            assert(before.contains(x) != plug);
        }
        assert(done.contains(x) <==> (if plug {
            before.contains(x) || part.contains(x)
        } else {
            before.contains(x) && !part.contains(x)
        }));
        assert(standing(done, c).contains(x) <==> (if plug {
            done.contains(x) && !part.contains(x)
        } else {
            done.contains(x) || part.contains(x)
        }));
    }
    assert(standing(base, s1.maps) =~= before);
}

/// The writable buffers of a chain, or the readable ones.
fn filtered(desc: &Vec<Descriptor>, writable: bool) -> (r: Vec<Descriptor>)
    ensures
        r@ == part(desc@, writable),
        forall|regions: Seq<(u64, u64)>| #[trigger]
            reachable(regions, desc@) ==> reachable(regions, r@),
{
    let ghost keep = |d: Descriptor| d.writable() == writable;
    let mut out: Vec<Descriptor> = Vec::new();
    let mut i: usize = 0;
    proof {
        reveal(Seq::filter);
        assert(desc@.take(0) =~= Seq::empty());
    }
    while i < desc.len()
        invariant
            i <= desc@.len(),
            keep == (|d: Descriptor| d.writable() == writable),
            out@ == desc@.take(i as int).filter(keep),
            forall|k: int| 0 <= k < out@.len() ==> desc@.contains(#[trigger] out@[k]),
        decreases desc@.len() - i,
    {
        proof {
            reveal(Seq::filter);
            assert(desc@.take(i + 1).drop_last() =~= desc@.take(i as int));
            assert(desc@.contains(desc@[i as int]));
        }
        let d: Descriptor = desc[i];
        if d.is_write_only() == writable {
            out.push(d);
        }
        i = i + 1;
    }
    assert(desc@.take(desc@.len() as int) =~= desc@);
    assert forall|regions: Seq<(u64, u64)>| #[trigger]
        reachable(regions, desc@) implies reachable(regions, out@) by {
        assert forall|k: int| 0 <= k < out@.len() implies covers(
            regions,
            (#[trigger] out@[k]).addr as int,
            out@[k].len as int,
        ) by {
            assert(desc@.contains(out@[k]));
            let j = choose|j: int| 0 <= j < desc@.len() && desc@[j] == out@[k];
            assert(covers(regions, desc@[j].addr as int, desc@[j].len as int));
        }
    }
    out
}

fn is_out_of_order(desc: &Vec<Descriptor>) -> (r: bool)
    ensures
        r == out_of_order(desc@),
{
    let mut written: bool = false;
    let mut i: usize = 0;
    while i < desc.len()
        invariant
            i <= desc@.len(),
            written <==> exists|k: int| 0 <= k < i && (#[trigger] desc@[k]).writable(),
            forall|a: int, b: int|
                0 <= a < b < i ==> !((#[trigger] desc@[a]).writable() && !(
                #[trigger] desc@[b]).writable()),
        decreases desc@.len() - i,
    {
        if desc[i].is_write_only() {
            written = true;
            assert(desc@[i as int].writable());
        } else if written {
            let ghost k = choose|k: int| 0 <= k < i && (#[trigger] desc@[k]).writable();
            assert(desc@[k].writable() && !desc@[i as int].writable());
            return true;
        }
        i = i + 1;
    }
    false
}

fn counted(desc: &Vec<Descriptor>) -> (r: usize)
    ensures
        r == clipped(length(desc@)),
        0 <= length(desc@),
{
    match sum_lengths(desc.as_slice()) {
        Some(n) => n,
        None => usize::MAX,
    }
}

/// The pinned ranges and those of the chain itself.
fn pin_own(desc: &Vec<Descriptor>, pinned: &Vec<(u64, u64)>) -> (r: Vec<(u64, u64)>)
    ensures
        r@ == pinned@ + own_pins(desc@),
{
    let mut out: Vec<(u64, u64)> = Vec::new();
    let mut i: usize = 0;
    while i < pinned.len()
        invariant
            i <= pinned@.len(),
            out@ =~= pinned@.take(i as int),
        decreases pinned@.len() - i,
    {
        out.push(pinned[i]);
        i = i + 1;
    }
    let mut j: usize = 0;
    assert(out@ =~= pinned@ + own_pins(desc@).take(0));
    while j < desc.len()
        invariant
            j <= desc@.len(),
            out@ =~= pinned@ + own_pins(desc@).take(j as int),
        decreases desc@.len() - j,
    {
        out.push((desc[j].addr, desc[j].len as u64));
        j = j + 1;
    }
    assert(own_pins(desc@).take(desc@.len() as int) =~= own_pins(desc@));
    out
}

fn answer_bytes(code: u16, state: u16) -> (r: Vec<u8>)
    ensures
        r@ == answer(code, state),
        r@.len() == 10,
{
    let mut out: Vec<u8> = put_le16(code);
    let mut i: usize = 0;
    while i < 6
        invariant
            i <= 6,
            out@ =~= le16_bytes(code) + Seq::new(i as nat, |k: int| 0u8),
        decreases 6 - i,
    {
        out.push(0);
        i = i + 1;
    }
    assert(out@ =~= le16_bytes(code) + seq![0u8, 0, 0, 0, 0, 0]);
    let mut tail: Vec<u8> = put_le16(state);
    out.append(&mut tail);
    out
}

impl VirtioMem {
    /// Serves the chain that is next, if there is one.
    fn turn<M: Mapper>(
        &mut self,
        queues: &mut Queues,
        control: &mut MemoryControl,
        mapper: &mut M,
        view: &mut Guest,
        pinned: &Vec<(u64, u64)>,
    ) -> (r: Result<bool, DeviceError>)
        requires
            old(self).sound(),
            old(self)@.agrees(old(control)@),
            old(self)@.mirrored(old(view)@),
            old(queues)@.wf(),
            old(queues).rings@.len() == 1,
        ensures
            final(self).sound(),
            final(self)@.agrees(final(control)@),
            final(self)@.mirrored(final(view)@),
            final(queues)@.wf(),
            final(queues)@.kept(old(queues)@),
            turn_rel(
                snapshot(old(self)@, old(control)@, old(mapper).calls(), old(view)@),
                old(queues)@,
                pinned@,
                snapshot(final(self)@, final(control)@, final(mapper).calls(), final(view)@),
                final(queues)@,
                r,
            ),
            in_step(old(mapper).calls(), old(view)@) && !adrift(r) ==> in_step(
                final(mapper).calls(),
                final(view)@,
            ),
            outside(final(self)@, final(view)@) == outside(old(self)@, old(view)@),
    {
        let ghost s0 = snapshot(self@, control@, mapper.calls(), view@);
        let ghost q0 = queues@;
        let popped: Result<Option<Chain>, DeviceError> = queues.pop(0, view);
        let ghost q = queues@;
        let ghost m = view@;
        let ghost c = chain_view(popped);
        assert(pop_rel(q0, 0, s0.memory, q, m, c));
        proof {
            lemma_outside_same(s0.device, s0.memory, s0.device, m);
        }
        let chain: Chain = match popped {
            Err(e) => {
                return Err(e);
            },
            Ok(None) => {
                return Ok(false);
            },
            Ok(Some(chain)) => chain,
        };
        assert(c == Ok::<Option<(u16, Seq<Descriptor>)>, DeviceError>(
            Some((chain.head, chain.descriptors@)),
        ));
        let desc: Vec<Descriptor> = chain.descriptors;
        assert(reachable(m.regions, desc@)) by {
            assert forall|i: int| 0 <= i < desc@.len() implies covers(
                m.regions,
                (#[trigger] desc@[i]).addr as int,
                desc@[i].len as int,
            ) by {
                assert(desc@[i].sound(m.regions));
            }
        }
        let inputs: Vec<Descriptor> = filtered(&desc, false);
        let outputs: Vec<Descriptor> = filtered(&desc, true);
        let read: usize = counted(&inputs);
        let write: usize = counted(&outputs);
        assert((c->Ok_0->0).1 == desc@);
        if read != 24 || write < 10 {
            return Err(
                DeviceError::Memory(MemoryError::InvalidVirtioMemRequestBuffers { read, write }),
            );
        }
        if is_out_of_order(&desc) {
            return Err(
                DeviceError::Memory(MemoryError::ReadableDescriptorAfterWritableDescriptor),
            );
        }
        let from: Vec<Segment> = match slices(view, inputs.as_slice()) {
            Ok(segments) => segments,
            Err(e) => {
                return Err(e);
            },
        };
        let req: Vec<u8> = copy_to(from.as_slice(), 24, view);
        let pins: Vec<(u64, u64)> = pin_own(&desc, pinned);
        let ghost s2 = snapshot(self@, control@, mapper.calls(), view@);
        proof {
            lemma_outside_same(s0.device, s0.memory, s0.device, view@);
        }
        view.regions_are_ordered();
        let a: Result<(u16, u16), MemoryError> = self.request(
            req.as_slice(),
            control,
            mapper,
            view,
            &pins,
        );
        let ghost s = snapshot(self@, control@, mapper.calls(), view@);
        assert(request_rel(s2, req@, pins@, s, a));
        proof {
            assert(s2.memory.regions == m.regions);
            assert forall|i: int| 0 <= i < desc@.len() implies covers(
                s.memory.regions,
                (#[trigger] desc@[i]).addr as int,
                desc@[i].len as int,
            ) by {
                let p = pinned@.len() + i;
                assert(pins@[p] == own_pins(desc@)[i]);
                assert(covers(m.regions, desc@[i].addr as int, desc@[i].len as int));
                pinned_memory_stays_mapped(s2, req@, pins@, s, a, p);
            }
            assert(reachable(s.memory.regions, desc@));
            assert(through((req@, s, a)));
        }
        let (code, state): (u16, u16) = match a {
            Ok(answer) => answer,
            Err(e) => {
                assert(served(
                    s0.remember(m),
                    q,
                    pinned@,
                    (c->Ok_0->0),
                    req@,
                    s,
                    a,
                    s,
                    q,
                    Err(DeviceError::Memory(e)),
                ));
                return Err(DeviceError::Memory(e));
            },
        };
        let to: Vec<Segment> = match slices(view, outputs.as_slice()) {
            Ok(segments) => segments,
            Err(e) => {
                return Err(e);
            },
        };
        let response: Vec<u8> = answer_bytes(code, state);
        copy_from(to.as_slice(), response.as_slice(), view);
        let ghost m2 = view@;
        let done: Result<(), DeviceError> = queues.complete(0, view, chain.head, 10);
        assert(complete_rel(q, 0, m2, (c->Ok_0->0).0, 10, queues@, view@, done));
        proof {
            lemma_outside_same(self@, s.memory, self@, view@);
        }
        let r: Result<bool, DeviceError> = match done {
            Ok(()) => Ok(true),
            Err(e) => Err(e),
        };
        assert(served(
            s0.remember(m),
            q,
            pinned@,
            (c->Ok_0->0),
            req@,
            s,
            a,
            s.remember(view@),
            queues@,
            r,
        ));
        r
    }

    /// Serves what the driver has asked for. `pinned` are the ranges that other
    /// queues may still use.
    pub fn process<M: Mapper>(
        &mut self,
        queues: &mut Queues,
        control: &mut MemoryControl,
        mapper: &mut M,
        view: &mut Guest,
        pinned: &Vec<(u64, u64)>,
    ) -> (r: Result<(), DeviceError>)
        requires
            old(self).sound(),
            old(self)@.agrees(old(control)@),
            old(self)@.mirrored(old(view)@),
            old(queues)@.wf(),
            old(queues).rings@.len() == 1,
        ensures
            final(self).sound(),
            final(self)@.agrees(final(control)@),
            final(self)@.mirrored(final(view)@),
            final(queues)@.wf(),
            final(queues)@.kept(old(queues)@),
            process_rel(
                snapshot(old(self)@, old(control)@, old(mapper).calls(), old(view)@),
                old(queues)@,
                pinned@,
                snapshot(final(self)@, final(control)@, final(mapper).calls(), final(view)@),
                final(queues)@,
                r,
            ),
            in_step(old(mapper).calls(), old(view)@) && !adrift(r) ==> in_step(
                final(mapper).calls(),
                final(view)@,
            ),
            outside(final(self)@, final(view)@) == outside(old(self)@, old(view)@),
    {
        let ghost s0 = snapshot(self@, control@, mapper.calls(), view@);
        let ghost q0 = queues@;
        let mut n: u16 = 0;
        while n < BUDGET
            invariant
                n <= BUDGET,
                s0 == snapshot(old(self)@, old(control)@, old(mapper).calls(), old(view)@),
                q0 == old(queues)@,
                self.sound(),
                self@.agrees(control@),
                self@.mirrored(view@),
                queues@.wf(),
                queues@.kept(q0),
                queues.rings@.len() == 1,
                in_step(s0.maps, s0.memory) ==> in_step(mapper.calls(), view@),
                outside(self@, view@) == outside(s0.device, s0.memory),
                turns_rel(
                    n as nat,
                    s0,
                    q0,
                    pinned@,
                    snapshot(self@, control@, mapper.calls(), view@),
                    queues@,
                    Ok(true),
                ),
            decreases BUDGET - n,
        {
            let ghost s = snapshot(self@, control@, mapper.calls(), view@);
            let ghost q = queues@;
            let t: Result<bool, DeviceError> = self.turn(queues, control, mapper, view, pinned);
            let ghost s1 = snapshot(self@, control@, mapper.calls(), view@);
            let ghost outcome = t;
            proof {
                assert(through((s, q, Ok::<bool, DeviceError>(true))));
                assert(turns_rel((n + 1) as nat, s0, q0, pinned@, s1, queues@, t));
                if t != Ok::<bool, DeviceError>(true) {
                    lemma_turns_stop(
                        (n + 1) as nat,
                        BUDGET as nat,
                        s0,
                        q0,
                        pinned@,
                        s1,
                        queues@,
                        t,
                    );
                }
            }
            match t {
                Err(e) => {
                    assert(through(outcome));
                    return Err(e);
                },
                Ok(more) => {
                    if !more {
                        assert(through(outcome));
                        return Ok(());
                    }
                },
            }
            n = n + 1;
        }
        assert(through(Ok::<bool, DeviceError>(true)));
        Ok(())
    }
}

/// A turn of the device: up to [`BUDGET`] requests are served.
pub open spec fn process_rel(
    s0: Machine,
    q0: QueuesView,
    pinned: Seq<(u64, u64)>,
    s1: Machine,
    q1: QueuesView,
    r: Result<(), DeviceError>,
) -> bool {
    exists|t: Result<bool, DeviceError>|
        {
            &&& #[trigger] through(t)
            &&& turns_rel(BUDGET as nat, s0, q0, pinned, s1, q1, t)
            &&& r == match t {
                Ok(_) => Ok::<(), DeviceError>(()),
                Err(e) => Err(e),
            }
        }
}

/// The device after it took over whether the driver is up and the target, and
/// whether that changed.
pub open spec fn synced(d: MemView, status: MemoryStatus, ready: bool) -> (MemView, bool) {
    if status.requested_size_mib * MIB != d.requested {
        (
            MemView {
                ready,
                requested: (status.requested_size_mib * MIB) as u64,
                generation: d.generation.wrapping_add(1),
                ..d
            },
            true,
        )
    } else {
        (MemView { ready, ..d }, false)
    }
}

/// The device at `start`, with the target asked for so far.
pub open spec fn attached(d: MemView, start: u64, status: MemoryStatus) -> (
    MemView,
    Result<(), MemoryError>,
) {
    if start % (granule_mib(status.block_size_mib) * MIB) as u64 != 0 {
        (d, Err(MemoryError::HotplugAlignment { address: start }))
    } else if start + d.capacity > u64::MAX {
        (d, Err(MemoryError::HotplugOverflow))
    } else {
        (MemView { start, requested: (status.requested_size_mib * MIB) as u64, ..d }, Ok(()))
    }
}

/// The configuration space of the device.
pub open spec fn config_of(d: MemView) -> Seq<u8> {
    le64_bytes(d.block) + Seq::new(8, |i: int| 0u8) + le64_bytes(d.start) + le64_bytes(d.capacity)
        + le64_bytes(d.capacity) + le64_bytes(d.plugged) + le64_bytes(d.requested)
}

impl VirtioDevice for VirtioMem {
    open spec fn wf(&self) -> bool {
        self.sound()
    }

    open spec fn id_of(&self) -> u32 {
        24
    }

    open spec fn offered(&self) -> u64 {
        2
    }

    open spec fn required(&self) -> u64 {
        2
    }

    open spec fn queues_of(&self) -> nat {
        1
    }

    open spec fn config(&self) -> Seq<u8> {
        config_of(self@)
    }

    open spec fn generation_of(&self) -> u32 {
        self.generation
    }

    /// Requests wait for a turn in which every vCPU is quiescent.
    open spec fn notify_rel(
        d0: Self,
        queue: int,
        q0: QueuesView,
        m0: Memory,
        d1: Self,
        q1: QueuesView,
        m1: Memory,
        r: Result<(), DeviceError>,
    ) -> bool {
        d1 == d0 && q1 == q0 && m1 == m0 && r == Ok::<(), DeviceError>(())
    }

    open spec fn poll_rel(
        d0: Self,
        q0: QueuesView,
        m0: Memory,
        d1: Self,
        q1: QueuesView,
        m1: Memory,
        r: Result<(), DeviceError>,
    ) -> bool {
        d1 == d0 && q1 == q0 && m1 == m0 && r == Ok::<(), DeviceError>(())
    }

    /// A reset keeps the plugged memory and what it holds.
    open spec fn reset_rel(d0: Self, d1: Self, r: Result<(), DeviceError>) -> bool {
        d1@ == (MemView { ready: false, ..d0@ }) && r == Ok::<(), DeviceError>(())
    }

    open spec fn flush_rel(d0: Self, d1: Self, r: Result<(), DeviceError>) -> bool {
        d1 == d0 && r == Ok::<(), DeviceError>(())
    }

    fn required_features(&self) -> (r: u64) {
        2
    }

    fn generation(&self) -> (r: u32) {
        self.generation
    }

    fn device_id(&self) -> (r: u32) {
        24
    }

    fn features(&self) -> (r: u64) {
        2
    }

    fn queue_count(&self) -> (r: usize) {
        1
    }

    fn read_config(&self, offset: usize, width: usize) -> (r: Vec<u8>) {
        let mut config: Vec<u8> = put_le64(self.block);
        let mut i: usize = 0;
        while i < 8
            invariant
                i <= 8,
                config@ =~= le64_bytes(self.block) + Seq::new(i as nat, |k: int| 0u8),
            decreases 8 - i,
        {
            config.push(0);
            i = i + 1;
        }
        let mut start: Vec<u8> = put_le64(self.start);
        let mut size: Vec<u8> = put_le64(self.capacity);
        let mut usable: Vec<u8> = put_le64(self.capacity);
        let mut plugged: Vec<u8> = put_le64(self.plugged);
        let mut requested: Vec<u8> = put_le64(self.requested);
        config.append(&mut start);
        config.append(&mut size);
        config.append(&mut usable);
        config.append(&mut plugged);
        config.append(&mut requested);
        assert(config@ =~= config_of(self@));
        read_config(config.as_slice(), offset, width)
    }

    fn notify(&mut self, queue: usize, queues: &mut Queues, mem: &mut Guest) -> (r: Result<
        (),
        DeviceError,
    >) {
        Ok(())
    }

    fn poll(&mut self, queues: &mut Queues, mem: &mut Guest) -> (r: Result<(), DeviceError>) {
        Ok(())
    }

    fn reset(&mut self) -> (r: Result<(), DeviceError>) {
        let ghost before = self@;
        self.ready = false;
        assert(self@ =~= (MemView { ready: false, ..before }));
        assert forall|a: u64| #[trigger] self@.blocks.contains(a) implies self@.slot(a) by {
            assert(before.blocks.contains(a));
        }
        Ok(())
    }

    fn flush(&mut self) -> (r: Result<(), DeviceError>) {
        Ok(())
    }
}

} // verus!

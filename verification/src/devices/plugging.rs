//! What holds of every plug and unplug: the guest, the device and the device
//! models keep the same memory, and an unplug undoes a plug.
use crate::bytes::{le16, le64};
use crate::devices::memory::{
    all_blocks, all_plugged, any_pinned, asked, backed, change_rel, changeable, chosen, decide,
    failed_at, failures, granted, held, held_blocks, held_piece, held_pieces, in_region, in_step,
    left_at, lemma_backed, lemma_changed, lemma_granted, lemma_plugged_mib, lemma_row,
    lemma_standing_concat, lemma_toggled, list_rel, pins, request_rel, rollback_restores_mappings,
    row, settled, standing, toggled, undoing, unmaps, unplug_all_leaves_nothing, Machine, MemView,
    Verdict, VirtioMem,
};
use crate::devices::mmio::{write_rel, MmioView};
use crate::error::{DeviceError, MemoryError};
use crate::guest::{ordered, seen, Allocation, Memory, Piece};
use crate::memory::{MemoryStatus, MIB};
use crate::platform::VmCall;
use vstd::prelude::*;

verus! {

/// A rollback failed: what is mapped is not known any more.
pub open spec fn unsettled<T>(r: Result<T, MemoryError>) -> bool {
    r matches Err(e) && e is RollbackFailed
}

/// A call that maps and unmaps nothing changes nothing of what is mapped.
pub(crate) proof fn lemma_silent(base: Set<Piece>, calls: Seq<VmCall>, call: VmCall)
    requires
        !(call is Mapped),
        !(call is Unmapped),
    ensures
        standing(base, calls.push(call)) == standing(base, calls),
{
    assert(calls.push(call).drop_last() =~= calls);
}

/// A call that maps nothing, and accesses that leave the regions as they are,
/// keep memory in step.
pub(crate) proof fn lemma_stays_in_step(calls: Seq<VmCall>, m0: Memory, call: VmCall, m1: Memory)
    requires
        in_step(calls, m0),
        m1.same(m0),
        !(call is Mapped),
        !(call is Unmapped),
    ensures
        in_step(calls, m1),
        in_step(calls.push(call), m1),
{
    lemma_silent(Set::empty(), calls, call);
    assert(seen(m1) =~= seen(m0));
}

/// A region that starts where a block may stand is that block.
proof fn lemma_region_of_block(d: MemView, regions: Seq<(u64, u64)>, x: (u64, u64))
    requires
        d.shape(),
        d.exact(regions),
        ordered(regions),
        regions.contains(x),
        d.slot(x.0),
    ensures
        d.blocks.contains(x.0),
        x.1 == d.block,
{
    let i = choose|i: int| 0 <= i < regions.len() && regions[i] == x;
    assert(0 < regions[i].1);
}

/// What backs each address after a change.
proof fn lemma_backed_at(
    table: Map<u64, Allocation>,
    addresses: Seq<u64>,
    list: Seq<Piece>,
    plug: bool,
)
    requires
        list.len() == addresses.len(),
        forall|i: int| 0 <= i < list.len() ==> (#[trigger] list[i]).range.0 == addresses[i],
        forall|i: int, j: int|
            0 <= i < j < addresses.len() ==> #[trigger] addresses[i] != #[trigger] addresses[j],
    ensures
        forall|a: u64| #[trigger]
            backed(table, list, plug).contains_key(a) <==> if plug {
                table.contains_key(a) || addresses.contains(a)
            } else {
                table.contains_key(a) && !addresses.contains(a)
            },
        forall|a: u64|
            table.contains_key(a) && !addresses.contains(a) ==> #[trigger] backed(
                table,
                list,
                plug,
            )[a] == table[a],
        plug ==> forall|i: int|
            0 <= i < list.len() ==> backed(table, list, plug)[(#[trigger] list[i]).range.0]
                == list[i].allocation,
    decreases list.len(),
{
    if list.len() > 0 {
        let less = list.drop_last();
        let fewer = addresses.drop_last();
        let last = addresses.last();
        let n = list.len() - 1;
        assert forall|i: int| 0 <= i < less.len() implies (#[trigger] less[i]).range.0
            == fewer[i] by {
            assert(less[i] == list[i]);
        }
        lemma_backed_at(table, fewer, less, plug);
        assert(list[n].range.0 == addresses[n]);
        assert forall|a: u64| #[trigger] addresses.contains(a) <==> fewer.contains(a) || a
            == last by {
            if addresses.contains(a) {
                let k = choose|k: int| 0 <= k < addresses.len() && addresses[k] == a;
                if k < n {
                    assert(fewer[k] == a);
                }
            }
            if fewer.contains(a) {
                let k = choose|k: int| 0 <= k < fewer.len() && fewer[k] == a;
                assert(addresses[k] == a);
            }
            assert(addresses[n] == last);
        }
        assert forall|a: u64| #[trigger]
            backed(table, list, plug).contains_key(a) <==> (if plug {
                table.contains_key(a) || addresses.contains(a)
            } else {
                table.contains_key(a) && !addresses.contains(a)
            }) by {
            assert(addresses.contains(a) <==> fewer.contains(a) || a == last);
            assert(backed(table, less, plug).contains_key(a) <==> (if plug {
                table.contains_key(a) || fewer.contains(a)
            } else {
                table.contains_key(a) && !fewer.contains(a)
            }));
        }
        assert forall|a: u64|
            table.contains_key(a) && !addresses.contains(a) implies #[trigger] backed(
            table,
            list,
            plug,
        )[a] == table[a] by {
            assert(addresses.contains(a) <==> fewer.contains(a) || a == last);
            assert(backed(table, less, plug)[a] == table[a]);
        }
        if plug {
            assert forall|i: int| 0 <= i < list.len() implies backed(table, list, plug)[(
            #[trigger] list[i]).range.0] == list[i].allocation by {
                if i < n {
                    assert(less[i] == list[i]);
                    assert(addresses[i] != addresses[n]);
                }
            }
        }
    } else {
        assert(forall|a: u64| !addresses.contains(a));
    }
}

/// What is asked of the device concerns places of its region, plugged or not as
/// it must be.
proof fn lemma_decided(s0: Machine, req: Seq<u8>, pinned: Seq<(u64, u64)>)
    requires
        s0.device.shape(),
        req.len() == 24,
    ensures
        decide(s0.device, s0.status, req, pinned) matches Verdict::Change { addresses, plug }
            ==> changeable(s0.device, addresses, plug),
{
    let d = s0.device;
    let kind = le16(req, 0);
    let addr = le64(req, 8) as u64;
    let count = le16(req, 16);
    if decide(d, s0.status, req, pinned) is Change {
        if kind == 2 {
            unplug_all_leaves_nothing(d);
        } else {
            lemma_row(d, addr, count);
        }
    }
}

/// A change that is done keeps memory in step.
proof fn lemma_change_in_step(s0: Machine, addresses: Seq<u64>, plug: bool, s1: Machine)
    requires
        s0.device.wf(),
        s0.device.mirrored(s0.memory),
        s0.memory.wf(),
        changeable(s0.device, addresses, plug),
        in_step(s0.maps, s0.memory),
        change_rel(s0, addresses, plug, s1, Ok(true)),
    ensures
        in_step(s1.maps, s1.memory),
{
    let d = s0.device;
    let list = choose|list: Seq<Piece>| #[trigger]
        chosen(d, addresses, plug, list) && list_rel(s0, addresses, list, plug, s1, Ok(true));
    let before = seen(s0.memory);
    let after = seen(s1.memory);
    let calls = granted(list, plug);
    lemma_standing_concat(Set::empty(), s0.maps, calls);
    lemma_granted(before, list, plug);
    lemma_changed(d, s0.memory.regions, addresses, plug);
    lemma_backed_at(s0.memory.backings, addresses, list, plug);
    let regions = s0.memory.regions;
    let now = s1.memory.regions;
    assert forall|x: Piece| standing(before, calls).contains(x) == after.contains(x) by {
        let a = x.range.0;
        assert(now.contains(x.range) <==> (if plug {
            regions.contains(x.range) || (x.range.1 == d.block && addresses.contains(a))
        } else {
            regions.contains(x.range) && !addresses.contains(a)
        }));
        if list.contains(x) {
            let i = choose|i: int| 0 <= i < list.len() && list[i] == x;
            assert(list[i].range == (addresses[i], d.block));
            assert(addresses.contains(addresses[i]));
        }
        if addresses.contains(a) {
            let i = choose|i: int| 0 <= i < addresses.len() && addresses[i] == a;
            assert(d.slot(addresses[i]) && d.blocks.contains(addresses[i]) != plug);
            assert(list[i].range == (addresses[i], d.block));
            if regions.contains(x.range) {
                lemma_region_of_block(d, regions, x.range);
                assert(!plug);
                if before.contains(x) {
                    assert(x.allocation == d.table[a]);
                    assert(list[i] == x);
                }
            }
            if plug && after.contains(x) {
                assert(s1.memory.backings[list[i].range.0] == list[i].allocation);
                assert(list[i] == x);
            }
        } else if s0.memory.backings.contains_key(a) {
            assert(backed(s0.memory.backings, list, plug)[a] == s0.memory.backings[a]);
        }
    }
    assert(standing(before, calls) =~= after);
}

/// Whatever request is served or refused, what is mapped for the guest stays
/// what its device models see, unless a rollback fails.
pub proof fn requests_keep_memory_in_step(
    s0: Machine,
    req: Seq<u8>,
    pinned: Seq<(u64, u64)>,
    s1: Machine,
    r: Result<(u16, u16), MemoryError>,
)
    requires
        s0.device.wf(),
        s0.device.mirrored(s0.memory),
        s0.memory.wf(),
        req.len() == 24,
        in_step(s0.maps, s0.memory),
        request_rel(s0, req, pinned, s1, r),
        !unsettled(r),
    ensures
        in_step(s1.maps, s1.memory),
{
    let d = s0.device;
    lemma_decided(s0, req, pinned);
    match decide(d, s0.status, req, pinned) {
        Verdict::Answer { code, state } => {},
        Verdict::Change { addresses, plug } => {
            let (s, c) = choose|s: Machine, c: Result<bool, MemoryError>|
                #[trigger] change_rel(s0, addresses, plug, s, c) && match c {
                    Err(e) => s1 == s && r == Err::<(u16, u16), MemoryError>(e),
                    Ok(false) => s1 == s && r == Ok::<(u16, u16), MemoryError>((2, 0)),
                    Ok(true) => s1 == settled(s) && r == Ok::<
                        (u16, u16),
                        MemoryError,
                    >((0, 0)),
                };
            if c == Ok::<bool, MemoryError>(true) {
                lemma_change_in_step(s0, addresses, plug, s);
            } else if c == Ok::<bool, MemoryError>(false) {
                let before = standing(Set::empty(), s0.maps);
                assert forall|i: int| 0 <= i < addresses.len() implies (if plug {
                    forall|p: Piece| #[trigger]
                        before.contains(p) ==> p.range.0 != #[trigger] addresses[i]
                } else {
                    before.contains(
                        Piece {
                            range: (#[trigger] addresses[i], d.block),
                            allocation: d.table[addresses[i]],
                        },
                    )
                }) by {
                    assert(d.slot(addresses[i]) && d.blocks.contains(addresses[i]) != plug);
                    assert forall|p: Piece| plug && #[trigger] before.contains(p) implies p.range.0
                        != addresses[i] by {
                        if p.range.0 == addresses[i] {
                            lemma_region_of_block(d, s0.memory.regions, p.range);
                        }
                    }
                }
                rollback_restores_mappings(s0, addresses, plug, s, Set::empty());
            }
        },
    }
}

/// Whether an address lies in the device's range.
pub open spec fn in_window(d: MemView, a: u64) -> bool {
    d.start <= a && a < d.start + d.capacity
}

/// What the device models see outside the device's range.
pub open spec fn outside(d: MemView, memory: Memory) -> Set<Piece> {
    Set::new(|p: Piece| seen(memory).contains(p) && !in_window(d, p.range.0))
}

/// The plugged blocks as plain values.
pub open spec fn plugged_pieces(d: MemView) -> Set<Piece> {
    Set::new(
        |p: Piece|
            d.blocks.contains(p.range.0) && p.range.1 == d.block && p.allocation
                == d.table[p.range.0],
    )
}

/// What is seen is what is plugged, and what lies outside the device's range.
pub proof fn window_holds_the_plugged_blocks(d: MemView, memory: Memory)
    requires
        d.shape(),
        d.mirrored(memory),
        memory.wf(),
    ensures
        seen(memory) == outside(d, memory).union(plugged_pieces(d)),
{
    let regions = memory.regions;
    assert forall|p: Piece|
        seen(memory).contains(p) == outside(d, memory).union(plugged_pieces(d)).contains(p) by {
        if seen(memory).contains(p) && in_window(d, p.range.0) {
            let i = choose|i: int| 0 <= i < regions.len() && regions[i] == p.range;
            assert(0 < regions[i].1);
            assert(d.blocks.contains(regions[i].0) && regions[i].1 == d.block);
        }
        if plugged_pieces(d).contains(p) {
            assert(d.blocks.contains(p.range.0));
            assert(regions.contains((p.range.0, d.block)));
            assert(p.range == (p.range.0, d.block));
        }
    }
    assert(seen(memory) =~= outside(d, memory).union(plugged_pieces(d)));
}

/// Another state of the device with the same range, and accesses, change nothing
/// of what lies outside.
pub(crate) proof fn lemma_outside_same(d0: MemView, m0: Memory, d1: MemView, m1: Memory)
    requires
        d1.start == d0.start,
        d1.capacity == d0.capacity,
        m1.same(m0),
    ensures
        outside(d1, m1) == outside(d0, m0),
        seen(m1) == seen(m0),
{
    assert(seen(m1) =~= seen(m0));
    assert(outside(d1, m1) =~= outside(d0, m0));
}

/// Whatever request is served, refused or fails, guest memory outside the
/// device's range stays what it is.
pub proof fn requests_leave_other_memory(
    s0: Machine,
    req: Seq<u8>,
    pinned: Seq<(u64, u64)>,
    s1: Machine,
    r: Result<(u16, u16), MemoryError>,
)
    requires
        s0.device.wf(),
        s0.device.mirrored(s0.memory),
        s0.memory.wf(),
        req.len() == 24,
        request_rel(s0, req, pinned, s1, r),
    ensures
        outside(s1.device, s1.memory) == outside(s0.device, s0.memory),
{
    let d = s0.device;
    lemma_decided(s0, req, pinned);
    match decide(d, s0.status, req, pinned) {
        Verdict::Answer { code, state } => {},
        Verdict::Change { addresses, plug } => {
            let (s, c) = choose|s: Machine, c: Result<bool, MemoryError>|
                #[trigger] change_rel(s0, addresses, plug, s, c) && match c {
                    Err(e) => s1 == s && r == Err::<(u16, u16), MemoryError>(e),
                    Ok(false) => s1 == s && r == Ok::<(u16, u16), MemoryError>((2, 0)),
                    Ok(true) => s1 == settled(s) && r == Ok::<(u16, u16), MemoryError>((0, 0)),
                };
            let list = choose|list: Seq<Piece>| #[trigger]
                chosen(d, addresses, plug, list) && list_rel(s0, addresses, list, plug, s, c);
            if c == Ok::<bool, MemoryError>(true) {
                lemma_changed(d, s0.memory.regions, addresses, plug);
                lemma_backed_at(s0.memory.backings, addresses, list, plug);
                assert forall|p: Piece|
                    outside(s1.device, s1.memory).contains(p) == outside(d, s0.memory).contains(
                        p,
                    ) by {
                    let a = p.range.0;
                    if addresses.contains(a) {
                        let k = choose|k: int| 0 <= k < addresses.len() && addresses[k] == a;
                        assert(d.slot(addresses[k]));
                        assert(in_window(d, a));
                    } else {
                        assert(s1.memory.regions.contains(p.range)
                            <==> s0.memory.regions.contains(p.range));
                        assert(s1.memory.backings.contains_key(a)
                            <==> s0.memory.backings.contains_key(a));
                        if s0.memory.backings.contains_key(a) {
                            assert(s1.memory.backings[a] == s0.memory.backings[a]);
                        }
                    }
                }
                assert(outside(s1.device, s1.memory) =~= outside(d, s0.memory));
            } else {
                lemma_outside_same(d, s0.memory, s1.device, s1.memory);
            }
        },
    }
}

/// Regions in order are told apart by which they are.
proof fn lemma_same_regions(a: Seq<(u64, u64)>, b: Seq<(u64, u64)>)
    requires
        ordered(a),
        ordered(b),
        forall|x: (u64, u64)| #[trigger] a.contains(x) <==> b.contains(x),
    ensures
        a == b,
    decreases a.len(),
{
    if a.len() == 0 {
        if b.len() > 0 {
            assert(b.contains(b[0]));
            assert(a.contains(b[0]));
        }
        assert(a =~= b);
    } else {
        let m = a.len() - 1;
        assert(a.contains(a[m]));
        let j = choose|j: int| 0 <= j < b.len() && b[j] == a[m];
        let n = b.len() - 1;
        assert(b.contains(b[n]));
        assert(a.contains(b[n]));
        let i = choose|i: int| 0 <= i < a.len() && a[i] == b[n];
        if i < m {
            assert(a[i].0 + a[i].1 <= a[m].0 && 0 < a[i].1);
        }
        if j < n {
            assert(b[j].0 + b[j].1 <= b[n].0 && 0 < b[j].1);
        }
        assert(a[m] == b[n]);
        let c = a.drop_last();
        let d = b.drop_last();
        lemma_drop_last_ordered(a);
        lemma_drop_last_ordered(b);
        assert forall|x: (u64, u64)| #[trigger] c.contains(x) <==> d.contains(x) by {
            if c.contains(x) {
                let k = choose|k: int| 0 <= k < c.len() && c[k] == x;
                assert(a[k] == x && a[k].0 + a[k].1 <= a[m].0 && 0 < a[k].1);
                assert(a.contains(x));
                let l = choose|l: int| 0 <= l < b.len() && b[l] == x;
                assert(d[l] == x);
            }
            if d.contains(x) {
                let k = choose|k: int| 0 <= k < d.len() && d[k] == x;
                assert(b[k] == x && b[k].0 + b[k].1 <= b[n].0 && 0 < b[k].1);
                assert(b.contains(x));
                assert(a.contains(x));
                let l = choose|l: int| 0 <= l < a.len() && a[l] == x;
                assert(c[l] == x);
            }
        }
        lemma_same_regions(c, d);
        assert(a =~= c.push(a[m]));
        assert(b =~= d.push(b[n]));
    }
}

proof fn lemma_drop_last_ordered(a: Seq<(u64, u64)>)
    requires
        ordered(a),
        a.len() > 0,
    ensures
        ordered(a.drop_last()),
{
    let c = a.drop_last();
    assert forall|i: int| 0 <= i < c.len() implies 0 < (#[trigger] c[i]).1 && c[i].0 + c[i].1
        <= u64::MAX by {
        assert(c[i] == a[i]);
    }
    assert forall|i: int, j: int| 0 <= i < j < c.len() implies (#[trigger] c[i]).0 + c[i].1 <= (
    #[trigger] c[j]).0 by {
        assert(c[i] == a[i] && c[j] == a[j]);
    }
}

/// The device and the view are in order after a change.
pub(crate) proof fn lemma_after_change(s0: Machine, addresses: Seq<u64>, plug: bool, s: Machine)
    requires
        s0.device.wf(),
        s0.device.mirrored(s0.memory),
        s0.memory.wf(),
        changeable(s0.device, addresses, plug),
        change_rel(s0, addresses, plug, s, Ok(true)),
    ensures
        settled(s).device.wf(),
        settled(s).device.mirrored(s.memory),
        s.memory.wf(),
{
    let d = s0.device;
    let list = choose|list: Seq<Piece>| #[trigger]
        chosen(d, addresses, plug, list) && list_rel(s0, addresses, list, plug, s, Ok(true));
    lemma_toggled(d.blocks, addresses, plug);
    lemma_backed(d, s0.memory, addresses, plug, list);
    lemma_backed_at(s0.memory.backings, addresses, list, plug);
    lemma_changed(d, s0.memory.regions, addresses, plug);
    let e = settled(s).device;
    assert(e.shape()) by {
        assert forall|a: u64| #[trigger] e.blocks.contains(a) implies e.slot(a) by {
            if addresses.contains(a) {
                let k = choose|k: int| 0 <= k < addresses.len() && addresses[k] == a;
                assert(d.slot(addresses[k]));
            } else {
                assert(d.blocks.contains(a));
                assert(d.slot(a));
            }
        }
        assert forall|i: int| 0 <= i < e.retained.len() implies e.slot(
            (#[trigger] e.retained[i]).range.0,
        ) && e.retained[i].range.1 == e.block by {
            assert(d.slot(d.retained[i].range.0));
        }
    }
    lemma_plugged_mib(e);
    let regions = s0.memory.regions;
    let now = s.memory.regions;
    let f = MemView { blocks: toggled(d.blocks, addresses, plug), ..d };
    assert(f.exact(now));
    assert(e.exact(now)) by {
        assert forall|a: u64| #[trigger] e.blocks.contains(a) implies now.contains(
            (a, e.block),
        ) by {
            assert(f.blocks.contains(a));
        }
    }
    assert forall|a: u64| #[trigger]
        s.memory.backings.contains_key(a) <==> exists|i: int|
            0 <= i < now.len() && (#[trigger] now[i]).0 == a by {
        if exists|i: int| 0 <= i < now.len() && (#[trigger] now[i]).0 == a {
            let i = choose|i: int| 0 <= i < now.len() && (#[trigger] now[i]).0 == a;
            assert(now.contains(now[i]));
            if regions.contains(now[i]) {
                let k = choose|k: int| 0 <= k < regions.len() && regions[k] == now[i];
                assert(regions[k].0 == a);
                assert(s0.memory.backings.contains_key(a));
            }
        }
        if s.memory.backings.contains_key(a) {
            let x = if s0.memory.backings.contains_key(a) {
                regions[choose|k: int| 0 <= k < regions.len() && (#[trigger] regions[k]).0 == a]
            } else {
                (a, d.block)
            };
            if s0.memory.backings.contains_key(a) {
                let k = choose|k: int| 0 <= k < regions.len() && (#[trigger] regions[k]).0 == a;
                assert(regions.contains(regions[k]));
            }
            assert(now.contains(x));
            let i = choose|i: int| 0 <= i < now.len() && now[i] == x;
            assert(now[i].0 == a);
        }
    }
}

/// Every mapping asked for from call number `n` on was granted.
pub open spec fn all_granted(calls: Seq<VmCall>, n: int) -> bool {
    forall|i: int|
        n <= i < calls.len() ==> match #[trigger] calls[i] {
            VmCall::Mapped { piece, result } => result is Ok,
            VmCall::Unmapped { piece, result } => result is Ok,
            _ => true,
        }
}

/// Where every mapping is granted, an unplug is done.
proof fn lemma_granted_unplug(
    s0: Machine,
    addresses: Seq<u64>,
    s: Machine,
    c: Result<bool, MemoryError>,
)
    requires
        change_rel(s0, addresses, false, s, c),
        all_granted(s.maps, s0.maps.len() as int),
    ensures
        c == Ok::<bool, MemoryError>(true),
{
    let list = choose|list: Seq<Piece>| #[trigger]
        chosen(s0.device, addresses, false, list) && list_rel(s0, addresses, list, false, s, c);
    if c != Ok::<bool, MemoryError>(true) {
        let (k, e, answers) = choose|
            k: int,
            e: MemoryError,
            answers: Seq<Result<(), MemoryError>>,
        | #[trigger]
            failed_at(s0, list, false, k, e, answers, s.maps);
        let n = s0.maps.len() + k;
        let first = s0.maps + granted(list.take(k), false);
        assert(first.len() == n);
        let refused = asked(list[k], false, Err(e));
        assert(s.maps =~= first + seq![refused] + undoing(list.take(k), false, answers));
        assert(s.maps[n] == refused);
        assert(false);
    }
}

/// What a plug of `addresses` did, an unplug of the same undoes.
proof fn lemma_undone_by(
    s0: Machine,
    plugged: Seq<u64>,
    s: Machine,
    s1: Machine,
    unplugged: Seq<u64>,
    s2: Machine,
)
    requires
        s0.device.wf(),
        s0.device.mirrored(s0.memory),
        s0.memory.wf(),
        changeable(s0.device, plugged, true),
        changeable(s1.device, unplugged, false),
        forall|a: u64| #[trigger] plugged.contains(a) <==> unplugged.contains(a),
        change_rel(s0, plugged, true, s, Ok(true)),
        s1 == settled(s),
        s1.device.wf(),
        s1.device.mirrored(s1.memory),
        s1.memory.wf(),
        change_rel(s1, unplugged, false, s2, Ok(true)),
    ensures
        s2.device.blocks == s0.device.blocks,
        s2.device.table == s0.device.table,
        s2.memory == s0.memory,
{
    let d = s0.device;
    let list = choose|list: Seq<Piece>| #[trigger]
        chosen(d, plugged, true, list) && list_rel(s0, plugged, list, true, s, Ok(true));
    let back = choose|back: Seq<Piece>| #[trigger]
        chosen(s1.device, unplugged, false, back) && list_rel(
            s1,
            unplugged,
            back,
            false,
            s2,
            Ok(true),
        );
    lemma_toggled(d.blocks, plugged, true);
    lemma_toggled(s1.device.blocks, unplugged, false);
    lemma_backed_at(d.table, plugged, list, true);
    lemma_backed_at(s1.device.table, unplugged, back, false);
    lemma_backed_at(s0.memory.backings, plugged, list, true);
    lemma_backed_at(s1.memory.backings, unplugged, back, false);
    lemma_changed(d, s0.memory.regions, plugged, true);
    lemma_changed(s1.device, s1.memory.regions, unplugged, false);
    let regions = s0.memory.regions;
    assert forall|a: u64| #[trigger] plugged.contains(a) implies !d.blocks.contains(a)
        && !s0.memory.backings.contains_key(a) && forall|x: (u64, u64)|
        x.0 == a ==> !#[trigger] regions.contains(x) by {
        let k = choose|k: int| 0 <= k < plugged.len() && plugged[k] == a;
        assert(d.slot(plugged[k]) && !d.blocks.contains(plugged[k]));
        assert forall|x: (u64, u64)| x.0 == a implies !#[trigger] regions.contains(x) by {
            if regions.contains(x) {
                lemma_region_of_block(d, regions, x);
            }
        }
        if s0.memory.backings.contains_key(a) {
            let i = choose|i: int| 0 <= i < regions.len() && (#[trigger] regions[i]).0 == a;
            assert(regions.contains(regions[i]));
        }
    }
    assert(s2.device.blocks =~= d.blocks) by {
        assert forall|a: u64| s2.device.blocks.contains(a) == d.blocks.contains(a) by {
            assert(plugged.contains(a) <==> unplugged.contains(a));
        }
    }
    assert(s2.device.table =~= d.table) by {
        assert forall|a: u64| s2.device.table.contains_key(a) == d.table.contains_key(a) by {
            assert(plugged.contains(a) <==> unplugged.contains(a));
            assert(d.table.contains_key(a) <==> d.blocks.contains(a));
        }
        assert forall|a: u64| d.table.contains_key(a) implies #[trigger] s2.device.table[a]
            == d.table[a] by {
            assert(plugged.contains(a) <==> unplugged.contains(a));
            assert(d.blocks.contains(a));
            assert(s1.device.table[a] == d.table[a]);
        }
    }
    assert(s2.memory.backings =~= s0.memory.backings) by {
        assert forall|a: u64|
            s2.memory.backings.contains_key(a) == s0.memory.backings.contains_key(a) by {
            assert(plugged.contains(a) <==> unplugged.contains(a));
        }
        assert forall|a: u64| s0.memory.backings.contains_key(a) implies #[trigger] s2.memory.backings[a]
            == s0.memory.backings[a] by {
            assert(plugged.contains(a) <==> unplugged.contains(a));
            assert(s1.memory.backings[a] == s0.memory.backings[a]);
        }
    }
    assert forall|x: (u64, u64)| #[trigger] s2.memory.regions.contains(x) <==> regions.contains(
        x,
    ) by {
        assert(plugged.contains(x.0) <==> unplugged.contains(x.0));
        assert(s1.memory.regions.contains(x) <==> regions.contains(x) || (x.1 == d.block
            && plugged.contains(x.0)));
    }
    lemma_same_regions(s2.memory.regions, regions);
}

/// Plugging blocks that are not plugged adds as many as there are.
proof fn lemma_toggled_count(d: MemView, addresses: Seq<u64>)
    requires
        d.blocks.finite(),
        changeable(d, addresses, true),
    ensures
        toggled(d.blocks, addresses, true).finite(),
        toggled(d.blocks, addresses, true).len() == d.blocks.len() + addresses.len(),
    decreases addresses.len(),
{
    if addresses.len() > 0 {
        let fewer = addresses.drop_last();
        let last = addresses.last();
        let n = addresses.len() - 1;
        assert forall|i: int| 0 <= i < fewer.len() implies d.slot(#[trigger] fewer[i])
            && !d.blocks.contains(fewer[i]) by {
            assert(fewer[i] == addresses[i]);
        }
        assert forall|i: int, j: int| 0 <= i < j < fewer.len() implies #[trigger] fewer[i]
            != #[trigger] fewer[j] by {
            assert(addresses[i] != addresses[j]);
        }
        lemma_toggled_count(d, fewer);
        lemma_toggled(d.blocks, fewer, true);
        assert(!fewer.contains(last)) by {
            if fewer.contains(last) {
                let k = choose|k: int| 0 <= k < fewer.len() && fewer[k] == last;
                assert(addresses[k] != addresses[n]);
            }
        }
        assert(!d.blocks.contains(addresses[n]));
        assert(!toggled(d.blocks, fewer, true).contains(last));
    }
}

/// A plug that succeeds plugs as many blocks as it names, and what is plugged
/// then does not exceed the target.
pub proof fn plugs_stay_within_the_target(
    s0: Machine,
    plug: Seq<u8>,
    pinned: Seq<(u64, u64)>,
    s1: Machine,
)
    requires
        s0.device.wf(),
        s0.device.mirrored(s0.memory),
        s0.device.agrees(s0.status),
        s0.memory.wf(),
        plug.len() == 24,
        le16(plug, 0) == 0,
        request_rel(s0, plug, pinned, s1, Ok((0, 0))),
    ensures
        s1.device.blocks.len() == s0.device.blocks.len() + le16(plug, 16),
        s1.device.plugged <= s0.status.requested_size_mib * MIB,
{
    let d = s0.device;
    let a = asked_row(d, plug);
    let n = le16(plug, 16);
    let s = lemma_plug_done(s0, plug, pinned, s1);
    lemma_row(d, le64(plug, 8) as u64, n);
    lemma_toggled_count(d, a);
    lemma_after_change(s0, a, true, s);
    let target = s0.status.requested_size_mib as int;
    let size = s0.status.block_size_mib as int;
    let blocks = s1.device.blocks.len() as int;
    assert(decide(d, s0.status, plug, pinned) is Change);
    crate::memory::lemma_block_positive(s0.status.block_size_mib);
    assert(blocks <= target / size);
    vstd::arithmetic::div_mod::lemma_fundamental_div_mod(target, size);
    assert(blocks * (size * MIB) <= target * MIB) by (nonlinear_arith)
        requires
            blocks <= target / size,
            target == size * (target / size) + target % size,
            0 <= target % size,
            0 < size,
            0 <= blocks,
    ;
    assert(s1.device.plugged == s1.device.blocks.len() * s1.device.block);
    assert(s1.device.block == size * MIB);
}

/// The request `unplug` is for the blocks that `plug` asked for, or for all
/// where there were none before.
pub open spec fn takes_back(d: MemView, plug: Seq<u8>, unplug: Seq<u8>) -> bool {
    ||| le16(unplug, 0) == 1 && le64(unplug, 8) == le64(plug, 8) && le16(unplug, 16) == le16(
        plug,
        16,
    )
    ||| le16(unplug, 0) == 2 && d.blocks == Set::<u64>::empty()
}

/// After `maps` nothing is mapped at any of `places`.
pub open spec fn vacant(maps: Seq<VmCall>, places: Seq<u64>) -> bool {
    forall|p: Piece| #[trigger]
        standing(Set::empty(), maps).contains(p) ==> !places.contains(p.range.0)
}

/// What a plug of `addresses` mapped, an unplug of the same unmaps.
proof fn lemma_unmapped_by(
    s0: Machine,
    plugged: Seq<u64>,
    s: Machine,
    s1: Machine,
    unplugged: Seq<u64>,
    s2: Machine,
)
    requires
        changeable(s0.device, plugged, true),
        forall|a: u64| #[trigger] plugged.contains(a) <==> unplugged.contains(a),
        change_rel(s0, plugged, true, s, Ok(true)),
        s1 == settled(s),
        change_rel(s1, unplugged, false, s2, Ok(true)),
        vacant(s0.maps, plugged),
    ensures
        standing(Set::empty(), s2.maps) == standing(Set::empty(), s0.maps),
{
    let d = s0.device;
    let list = choose|list: Seq<Piece>| #[trigger]
        chosen(d, plugged, true, list) && list_rel(s0, plugged, list, true, s, Ok(true));
    let back = choose|back: Seq<Piece>| #[trigger]
        chosen(s1.device, unplugged, false, back) && list_rel(
            s1,
            unplugged,
            back,
            false,
            s2,
            Ok(true),
        );
    lemma_backed_at(d.table, plugged, list, true);
    let before = standing(Set::empty(), s0.maps);
    let between = standing(before, granted(list, true));
    lemma_standing_concat(Set::empty(), s0.maps, granted(list, true));
    lemma_standing_concat(Set::empty(), s1.maps, granted(back, false));
    lemma_granted(before, list, true);
    lemma_granted(between, back, false);
    assert forall|p: Piece| #[trigger] list.contains(p) implies back.contains(p) by {
        let i = choose|i: int| 0 <= i < list.len() && list[i] == p;
        assert(list[i].range == (plugged[i], d.block));
        assert(plugged.contains(plugged[i]));
        assert(unplugged.contains(plugged[i]));
        let j = choose|j: int| 0 <= j < unplugged.len() && unplugged[j] == plugged[i];
        assert(s1.device.table[list[i].range.0] == list[i].allocation);
        assert(back[j].range == (unplugged[j], s1.device.block));
        assert(back[j] == p);
    }
    assert forall|p: Piece| #[trigger] back.contains(p) implies plugged.contains(p.range.0) by {
        let j = choose|j: int| 0 <= j < back.len() && back[j] == p;
        assert(back[j].range == (unplugged[j], s1.device.block));
        assert(unplugged.contains(unplugged[j]));
    }
    assert(standing(between, granted(back, false)) =~= before);
}

/// Where memory is in step, nothing is mapped where a block is not plugged.
proof fn lemma_vacant(s0: Machine, places: Seq<u64>)
    requires
        s0.device.wf(),
        s0.device.mirrored(s0.memory),
        s0.memory.wf(),
        changeable(s0.device, places, true),
        in_step(s0.maps, s0.memory),
    ensures
        vacant(s0.maps, places),
{
    let d = s0.device;
    assert forall|p: Piece| #[trigger]
        standing(Set::empty(), s0.maps).contains(p) implies !places.contains(p.range.0) by {
        if places.contains(p.range.0) {
            let i = choose|i: int| 0 <= i < places.len() && places[i] == p.range.0;
            assert(d.slot(places[i]) && !d.blocks.contains(places[i]));
            lemma_region_of_block(d, s0.memory.regions, p.range);
        }
    }
}

/// An unplug undoes a plug: the same blocks are plugged as before, backed by the
/// same allocations, in the device and in the view. The same is mapped for the
/// guest as before, if nothing was mapped where the blocks came; where memory is
/// in step, nothing was. Where a block is in use, the unplug is refused and
/// nothing changes.
pub proof fn unplug_undoes_plug(
    s0: Machine,
    plug: Seq<u8>,
    pins0: Seq<(u64, u64)>,
    s1: Machine,
    unplug: Seq<u8>,
    pins1: Seq<(u64, u64)>,
    s2: Machine,
    r: Result<(u16, u16), MemoryError>,
)
    requires
        s0.device.wf(),
        s0.device.mirrored(s0.memory),
        s0.device.agrees(s0.status),
        s0.memory.wf(),
        plug.len() == 24,
        le16(plug, 0) == 0,
        request_rel(s0, plug, pins0, s1, Ok((0, 0))),
        unplug.len() == 24,
        takes_back(s0.device, plug, unplug),
        request_rel(s1, unplug, pins1, s2, r),
    ensures
        any_pinned(asked_row(s0.device, plug), pins1, s0.device.block) ==> r == Ok::<
            (u16, u16),
            MemoryError,
        >((2, 0)) && s2 == s1,
        !any_pinned(asked_row(s0.device, plug), pins1, s0.device.block) && all_granted(
            s2.maps,
            s1.maps.len() as int,
        ) ==> {
            &&& r == Ok::<(u16, u16), MemoryError>((0, 0))
            &&& s2.device == (MemView { generation: s2.device.generation, ..s0.device })
            &&& s2.status == s0.status
            &&& s2.memory == s0.memory
            &&& vacant(s0.maps, asked_row(s0.device, plug)) ==> standing(Set::empty(), s2.maps)
                == standing(Set::empty(), s0.maps)
        },
        in_step(s0.maps, s0.memory) ==> vacant(s0.maps, asked_row(s0.device, plug)),
{
    let d = s0.device;
    let a = asked_row(d, plug);
    let s = lemma_plug_done(s0, plug, pins0, s1);
    lemma_after_change(s0, a, true, s);
    lemma_toggled(d.blocks, a, true);
    let e = s1.device;
    let b = given_back(e, a, unplug);
    assert forall|x: u64| #[trigger] e.blocks.contains(x) <==> d.blocks.contains(x) || a.contains(
        x,
    ) by {
        assert(toggled(d.blocks, a, true).contains(x) <==> d.blocks.contains(x) || a.contains(x));
    }
    lemma_given_back(d, e, a, plug, unplug);
    lemma_unplug_verdict(e, s1.status, a, plug, unplug, pins1);
    if !any_pinned(a, pins1, d.block) && all_granted(s2.maps, s1.maps.len() as int) {
        lemma_decided(s1, unplug, pins1);
        let t = lemma_unplug_done(s1, b, unplug, pins1, s2, r);
        lemma_undone_by(s0, a, s, s1, b, t);
        lemma_sizes_back(s0, s1, t, s2);
        if vacant(s0.maps, a) {
            lemma_unmapped_by(s0, a, s, s1, b, t);
        }
    }
    if in_step(s0.maps, s0.memory) {
        lemma_vacant(s0, a);
    }
}

/// The sizes are those before.
proof fn lemma_sizes_back(s0: Machine, s1: Machine, t: Machine, s2: Machine)
    requires
        s0.device.wf(),
        s0.device.agrees(s0.status),
        t.device == (MemView {
            blocks: t.device.blocks,
            table: t.device.table,
            generation: t.device.generation,
            plugged: t.device.plugged,
            ..s0.device
        }),
        t.device.blocks == s0.device.blocks,
        t.device.table == s0.device.table,
        t.status == (MemoryStatus {
            plugged_size_mib: t.status.plugged_size_mib,
            ..s0.status
        }),
        s2 == settled(t),
    ensures
        s2.device == (MemView { generation: s2.device.generation, ..s0.device }),
        s2.status == s0.status,
{
    lemma_plugged_mib(s0.device);
    assert(s2.device.plugged == s0.device.plugged);
    assert(s0.device.plugged / MIB == s0.status.plugged_size_mib);
}

/// A plug that succeeded is a change that was done.
proof fn lemma_plug_done(s0: Machine, plug: Seq<u8>, pins0: Seq<(u64, u64)>, s1: Machine) -> (s:
    Machine)
    requires
        s0.device.shape(),
        plug.len() == 24,
        le16(plug, 0) == 0,
        request_rel(s0, plug, pins0, s1, Ok((0, 0))),
    ensures
        changeable(s0.device, asked_row(s0.device, plug), true),
        in_region(s0.device, le64(plug, 8) as u64, le16(plug, 16)),
        change_rel(s0, asked_row(s0.device, plug), true, s, Ok(true)),
        s1 == settled(s),
{
    let a = asked_row(s0.device, plug);
    lemma_decided(s0, plug, pins0);
    assert(decide(s0.device, s0.status, plug, pins0) == (Verdict::Change {
        addresses: a,
        plug: true,
    }));
    let (s, c) = choose|s: Machine, c: Result<bool, MemoryError>|
        #[trigger] change_rel(s0, a, true, s, c) && match c {
            Err(e) => false,
            Ok(false) => false,
            Ok(true) => s1 == settled(s),
        };
    s
}

/// The blocks that the request `unplug` takes out, where those at `a` are.
spec fn given_back(e: MemView, a: Seq<u64>, unplug: Seq<u8>) -> Seq<u64> {
    if le16(unplug, 0) == 2 {
        all_blocks(e)
    } else {
        a
    }
}

proof fn lemma_given_back(d: MemView, e: MemView, a: Seq<u64>, plug: Seq<u8>, unplug: Seq<u8>)
    requires
        e.shape(),
        forall|x: u64| #[trigger]
            e.blocks.contains(x) <==> d.blocks.contains(x) || a.contains(x),
        takes_back(d, plug, unplug),
    ensures
        forall|x: u64| #[trigger] a.contains(x) <==> given_back(e, a, unplug).contains(x),
{
    let b = given_back(e, a, unplug);
    assert forall|x: u64| #[trigger] a.contains(x) <==> b.contains(x) by {
        if le16(unplug, 0) == 2 {
            unplug_all_leaves_nothing(e);
            lemma_toggled(e.blocks, b, false);
            assert(!toggled(e.blocks, b, false).contains(x));
            assert(e.blocks.contains(x) <==> a.contains(x));
            if b.contains(x) {
                let k = choose|k: int| 0 <= k < b.len() && b[k] == x;
                assert(e.blocks.contains(b[k]));
            }
        }
    }
}

/// What is decided of an unplug of the blocks at `a`.
proof fn lemma_unplug_verdict(
    e: MemView,
    status: MemoryStatus,
    a: Seq<u64>,
    plug: Seq<u8>,
    unplug: Seq<u8>,
    pins1: Seq<(u64, u64)>,
)
    requires
        e.shape(),
        unplug.len() == 24,
        a == row(le64(plug, 8) as u64, le16(plug, 16), e.block),
        in_region(e, le64(plug, 8) as u64, le16(plug, 16)),
        forall|x: u64| #[trigger] a.contains(x) ==> e.blocks.contains(x),
        forall|x: u64| #[trigger] a.contains(x) <==> given_back(e, a, unplug).contains(x),
        le16(unplug, 0) == 2 || (le16(unplug, 0) == 1 && le64(unplug, 8) == le64(plug, 8) && le16(
            unplug,
            16,
        ) == le16(plug, 16)),
    ensures
        decide(e, status, unplug, pins1) == if any_pinned(a, pins1, e.block) {
            Verdict::Answer { code: 2, state: 0 }
        } else {
            Verdict::Change { addresses: given_back(e, a, unplug), plug: false }
        },
{
    let b = given_back(e, a, unplug);
    assert(any_pinned(b, pins1, e.block) <==> any_pinned(a, pins1, e.block)) by {
        if any_pinned(b, pins1, e.block) {
            let (i, j) = choose|i: int, j: int|
                0 <= i < b.len() && 0 <= j < pins1.len() && #[trigger] pins(
                    pins1[j],
                    b[i],
                    e.block,
                );
            assert(b.contains(b[i]));
            assert(a.contains(b[i]));
            let k = choose|k: int| 0 <= k < a.len() && a[k] == b[i];
            assert(pins(pins1[j], a[k], e.block));
        }
        if any_pinned(a, pins1, e.block) {
            let (i, j) = choose|i: int, j: int|
                0 <= i < a.len() && 0 <= j < pins1.len() && #[trigger] pins(
                    pins1[j],
                    a[i],
                    e.block,
                );
            assert(a.contains(a[i]));
            assert(b.contains(a[i]));
            let k = choose|k: int| 0 <= k < b.len() && b[k] == a[i];
            assert(pins(pins1[j], b[k], e.block));
        }
    }
    if le16(unplug, 0) == 1 {
        assert(all_plugged(e.blocks, a)) by {
            assert forall|i: int| 0 <= i < a.len() implies e.blocks.contains(#[trigger] a[i]) by {
                assert(a.contains(a[i]));
            }
        }
    }
}

/// Where every mapping is granted, the unplug is done.
proof fn lemma_unplug_done(
    s1: Machine,
    b: Seq<u64>,
    unplug: Seq<u8>,
    pins1: Seq<(u64, u64)>,
    s2: Machine,
    r: Result<(u16, u16), MemoryError>,
) -> (t: Machine)
    requires
        decide(s1.device, s1.status, unplug, pins1) == (Verdict::Change {
            addresses: b,
            plug: false,
        }),
        request_rel(s1, unplug, pins1, s2, r),
        all_granted(s2.maps, s1.maps.len() as int),
    ensures
        change_rel(s1, b, false, t, Ok(true)),
        s2 == settled(t),
        r == Ok::<(u16, u16), MemoryError>((0, 0)),
{
    let (t, c) = choose|t: Machine, c: Result<bool, MemoryError>|
        #[trigger] change_rel(s1, b, false, t, c) && match c {
            Err(e) => s2 == t && r == Err::<(u16, u16), MemoryError>(e),
            Ok(false) => s2 == t && r == Ok::<(u16, u16), MemoryError>((2, 0)),
            Ok(true) => s2 == settled(t) && r == Ok::<(u16, u16), MemoryError>((0, 0)),
        };
    assert(t.maps == s2.maps);
    lemma_granted_unplug(s1, b, t, c);
    t
}

/// The blocks that the request `req` names.
pub open spec fn asked_row(d: MemView, req: Seq<u8>) -> Seq<u64> {
    row(le64(req, 8) as u64, le16(req, 16), d.block)
}

/// A reset of the device by its driver keeps the plugged memory and what it
/// holds: no access is made, and the same allocations stay plugged and in view.
pub proof fn reset_keeps_plugged_memory(
    d0: MmioView<VirtioMem>,
    m0: Memory,
    d1: MmioView<VirtioMem>,
    m1: Memory,
    r: Result<(), DeviceError>,
)
    requires
        write_rel(d0, 0x70, 0, m0, d1, m1, r),
    ensures
        r == Ok::<(), DeviceError>(()),
        d1.device@ == (MemView { ready: false, ..d0.device@ }),
        m1 == m0,
        d0.device@.mirrored(m0) ==> d1.device@.mirrored(m1),
{
    if d0.device@.mirrored(m0) {
        assert forall|a: u64| #[trigger] d1.device@.blocks.contains(a) implies m1.regions.contains(
            (a, d1.device@.block),
        ) && m1.backings.contains_key(a) && m1.backings[a] == d1.device@.table[a] by {
            assert(d0.device@.blocks.contains(a));
        }
    }
}

/// Where no rollback has failed, the blocks that may be mapped are the plugged
/// ones.
pub proof fn held_blocks_are_the_plugged_ones(d: MemView)
    requires
        d.shape(),
        d.retained.len() == 0,
    ensures
        held_pieces(d).to_set() == plugged_pieces(d),
{
    let e = MemView { blocks: held(d), ..d };
    assert(e.blocks =~= d.blocks);
    assert(e.shape()) by {
        assert forall|a: u64| #[trigger] e.blocks.contains(a) implies e.slot(a) by {
            assert(d.slot(a));
        }
    }
    unplug_all_leaves_nothing(e);
    let addresses = held_blocks(d);
    let list = held_pieces(d);
    lemma_toggled(e.blocks, addresses, false);
    assert(left_at(d.retained, 0) is None);
    assert forall|p: Piece| list.to_set().contains(p) == plugged_pieces(d).contains(p) by {
        if list.contains(p) {
            let i = choose|i: int| 0 <= i < list.len() && list[i] == p;
            assert(e.blocks.contains(addresses[i]));
            assert(p == held_piece(d, addresses[i]));
        }
        if plugged_pieces(d).contains(p) {
            let a = p.range.0;
            assert(!toggled(e.blocks, addresses, false).contains(a));
            assert(addresses.contains(a));
            let i = choose|i: int| 0 <= i < addresses.len() && addresses[i] == a;
            assert(list[i] == held_piece(d, a));
            assert(p.range == (a, d.block));
            assert(list[i] == p);
        }
    }
    assert(list.to_set() =~= plugged_pieces(d));
}

/// Unmapping with success each of `list` leaves what else was mapped.
pub(crate) proof fn lemma_all_unmapped(
    base: Set<Piece>,
    calls: Seq<VmCall>,
    list: Seq<Piece>,
    answers: Seq<Result<(), MemoryError>>,
)
    requires
        answers.len() == list.len(),
        forall|i: int| 0 <= i < answers.len() ==> (#[trigger] answers[i]) is Ok,
    ensures
        standing(base, calls + unmaps(list, answers)) == standing(base, calls).difference(
            list.to_set(),
        ),
{
    let before = standing(base, calls);
    assert(unmaps(list, answers) =~= granted(list, false)) by {
        assert forall|i: int| 0 <= i < answers.len() implies #[trigger] unmaps(list, answers)[i]
            == granted(list, false)[i] by {
            assert(answers[i] is Ok);
            assert(answers[i]->Ok_0 == ());
        }
    }
    lemma_standing_concat(base, calls, granted(list, false));
    lemma_granted(before, list, false);
    assert(standing(before, granted(list, false)) =~= before.difference(list.to_set()));
}

/// Where nothing failed, every answer is a success.
pub(crate) proof fn lemma_no_failures(answers: Seq<Result<(), MemoryError>>)
    requires
        failures(answers).len() == 0,
    ensures
        forall|i: int| 0 <= i < answers.len() ==> (#[trigger] answers[i]) is Ok,
    decreases answers.len(),
{
    if answers.len() > 0 {
        let rest = answers.drop_last();
        assert(answers.last() is Ok);
        lemma_no_failures(rest);
        assert forall|i: int| 0 <= i < answers.len() implies (#[trigger] answers[i]) is Ok by {
            if i < rest.len() {
                assert(rest[i] is Ok);
            }
        }
    }
}

} // verus!

//! What a driver may ask of the memory device, and what it gets.
use crate::bytes::{le16, le64};
use crate::devices::buffers::{length, reachable, reads, span, spread, writes};
use crate::devices::memory::{
    all_blocks, any_pinned, asked, change_rel, chosen, decide, failed_at, granted, lemma_row,
    lemma_toggled, list_rel, no_request, own_pins, part, process_rel, request_rel, row, served, settled,
    turn_rel, turns_rel, undoing, unplug_all_leaves_nothing, Machine, MemView, Verdict,
};
use crate::devices::places::{
    a_span_is_a_part_of_the_bytes, chain_places, laid, places, segments_are_the_bytes_of_the_chain,
    trace, transfers_go_byte_by_byte,
};
use crate::devices::plugging::{all_granted, lemma_after_change};
use crate::devices::queues::{complete_rel, pop_rel, QueuesView};
use crate::devices::requests::{lemma_complete, lemma_pop};
use crate::error::{DeviceError, MemoryError};
use crate::guest::{ordered, Access, Memory, Piece};
use crate::math::through;
use crate::memory::{MemoryStatus, MIB};
use crate::platform::VmCall;
use crate::ring::Descriptor;
use vstd::prelude::*;

verus! {

/// What a request asks for: 0 to plug, 1 to unplug, 2 to unplug all, 3 for the
/// state.
pub open spec fn wish(req: Seq<u8>) -> int {
    req[0] + 0x100 * req[1]
}

/// The first byte of what it is about.
pub open spec fn first(req: Seq<u8>) -> int {
    req[8] + 0x100 * req[9] + 0x1_0000 * req[10] + 0x100_0000 * req[11] + 0x1_0000_0000 * req[12]
        + 0x100_0000_0000 * req[13] + 0x1_0000_0000_0000 * req[14] + 0x100_0000_0000_0000 * req[15]
}

/// How many blocks it is about.
pub open spec fn many(req: Seq<u8>) -> int {
    req[16] + 0x100 * req[17]
}

/// The blocks that the request names lie in the region.
pub open spec fn within_region(d: MemView, req: Seq<u8>) -> bool {
    &&& many(req) > 0
    &&& first(req) % (d.block as int) == 0
    &&& d.start <= first(req)
    &&& first(req) + many(req) * d.block <= d.start + d.capacity
}

/// The block at `a` is one that the request names.
pub open spec fn named(d: MemView, req: Seq<u8>, a: u64) -> bool {
    &&& first(req) <= a < first(req) + many(req) * d.block
    &&& (a - first(req)) % (d.block as int) == 0
}

/// Some block that the request names is plugged.
pub open spec fn some_plugged(d: MemView, req: Seq<u8>) -> bool {
    exists|a: u64| named(d, req, a) && #[trigger] d.blocks.contains(a)
}

/// Every block that the request names is plugged.
pub open spec fn every_plugged(d: MemView, req: Seq<u8>) -> bool {
    forall|a: u64| #[trigger] named(d, req, a) ==> d.blocks.contains(a)
}

/// The byte at `x` is lent.
pub open spec fn lent(pin: (u64, u64), x: int) -> bool {
    pin.0 <= x < pin.0 + pin.1
}

/// A byte of the block at `a` is lent.
pub open spec fn in_use(d: MemView, pinned: Seq<(u64, u64)>, a: u64) -> bool {
    exists|j: int, x: int|
        0 <= j < pinned.len() && #[trigger] lent(pinned[j], x) && a <= x < a + d.block
}

proof fn lemma_named(d: MemView, req: Seq<u8>, a: u64)
    requires
        d.shape(),
        req.len() == 24,
        within_region(d, req),
    ensures
        row(first(req) as u64, many(req), d.block).contains(a) <==> named(d, req, a),
{
    let s = d.block as int;
    let f = first(req);
    let n = many(req);
    let all = row(f as u64, n, d.block);
    lemma_row(d, f as u64, n);
    if all.contains(a) {
        let i = choose|i: int| 0 <= i < all.len() && all[i] == a;
        assert(all[i] == f + i * s);
        assert(0 <= i * s && i * s + s <= n * s) by (nonlinear_arith)
            requires
                0 <= i,
                i + 1 <= n,
                s > 0,
        ;
        vstd::arithmetic::div_mod::lemma_mod_multiples_basic(i, s);
    }
    if named(d, req, a) {
        let x = a - f;
        let i = x / s;
        vstd::arithmetic::div_mod::lemma_fundamental_div_mod(x, s);
        assert(0 <= i < n && i * s == x) by (nonlinear_arith)
            requires
                x == s * i + 0,
                0 <= x < n * s,
                s > 0,
        ;
        assert(all[i] == a);
    }
}

proof fn lemma_fields(req: Seq<u8>)
    requires
        req.len() == 24,
    ensures
        le16(req, 0) == wish(req),
        le64(req, 8) == first(req),
        le16(req, 16) == many(req),
        0 <= first(req) <= u64::MAX,
        0 <= many(req) <= 0xffff,
{
}

proof fn lemma_plugged(d: MemView, req: Seq<u8>)
    requires
        d.shape(),
        req.len() == 24,
        within_region(d, req),
    ensures
        ({
            let all = row(first(req) as u64, many(req), d.block);
            &&& crate::devices::memory::any_plugged(d.blocks, all) <==> some_plugged(d, req)
            &&& crate::devices::memory::all_plugged(d.blocks, all) <==> every_plugged(d, req)
        }),
{
    let all = row(first(req) as u64, many(req), d.block);
    assert forall|a: u64| #[trigger] all.contains(a) <==> named(d, req, a) by {
        lemma_named(d, req, a);
    }
    if crate::devices::memory::any_plugged(d.blocks, all) {
        let i = choose|i: int| 0 <= i < all.len() && d.blocks.contains(#[trigger] all[i]);
        assert(all.contains(all[i]));
    }
    if some_plugged(d, req) {
        let a = choose|a: u64| named(d, req, a) && #[trigger] d.blocks.contains(a);
        assert(all.contains(a));
    }
    if crate::devices::memory::all_plugged(d.blocks, all) {
        assert forall|a: u64| #[trigger] named(d, req, a) implies d.blocks.contains(a) by {
            assert(all.contains(a));
        }
    }
    if every_plugged(d, req) {
        assert forall|i: int| 0 <= i < all.len() implies d.blocks.contains(#[trigger] all[i]) by {
            assert(all.contains(all[i]));
            assert(named(d, req, all[i]));
        }
    }
}

/// A question after the state changes nothing. The answer is 0 where all the
/// named blocks are plugged, 1 where none is, and 2 where some are.
pub proof fn the_state_is_told(
    s0: Machine,
    req: Seq<u8>,
    pinned: Seq<(u64, u64)>,
    s1: Machine,
    r: Result<(u16, u16), MemoryError>,
)
    requires
        s0.device.wf(),
        req.len() == 24,
        wish(req) == 3,
        request_rel(s0, req, pinned, s1, r),
    ensures
        s1 == s0,
        !within_region(s0.device, req) <==> r == Ok::<(u16, u16), MemoryError>((3, 0)),
        within_region(s0.device, req) && every_plugged(s0.device, req) <==> r == Ok::<
            (u16, u16),
            MemoryError,
        >((0, 0)),
        within_region(s0.device, req) && !some_plugged(s0.device, req) <==> r == Ok::<
            (u16, u16),
            MemoryError,
        >((0, 1)),
        within_region(s0.device, req) && some_plugged(s0.device, req) && !every_plugged(
            s0.device,
            req,
        ) <==> r == Ok::<(u16, u16), MemoryError>((0, 2)),
{
    lemma_fields(req);
    let d = s0.device;
    if within_region(d, req) {
        lemma_plugged(d, req);
        let f = first(req) as u64;
        let s = d.block as int;
        assert(named(d, req, f)) by {
            assert(0 < many(req) * s) by (nonlinear_arith)
                requires
                    many(req) > 0,
                    s > 0,
            ;
            vstd::arithmetic::div_mod::lemma_small_mod(0, s as nat);
        }
        if every_plugged(d, req) {
            assert(d.blocks.contains(f));
        }
    }
}

/// Requests that cannot be granted change nothing. What makes no sense is answered
/// with 3: an unknown wish, blocks that are none of the region's, a plug of what is
/// plugged, an unplug of what is not. A plug past the target is answered with 1,
/// and an unplug of what is lent with 2.
pub proof fn what_cannot_be_is_refused(
    s0: Machine,
    req: Seq<u8>,
    pinned: Seq<(u64, u64)>,
    s1: Machine,
    r: Result<(u16, u16), MemoryError>,
)
    requires
        s0.device.wf(),
        s0.device.agrees(s0.status),
        req.len() == 24,
        request_rel(s0, req, pinned, s1, r),
    ensures
        wish(req) > 3 ==> s1 == s0 && r == Ok::<(u16, u16), MemoryError>((3, 0)),
        wish(req) != 2 && !within_region(s0.device, req) ==> s1 == s0 && r == Ok::<
            (u16, u16),
            MemoryError,
        >((3, 0)),
        wish(req) == 0 && within_region(s0.device, req) && some_plugged(s0.device, req) ==> s1
            == s0 && r == Ok::<(u16, u16), MemoryError>((3, 0)),
        wish(req) == 1 && within_region(s0.device, req) && !every_plugged(s0.device, req) ==> s1
            == s0 && r == Ok::<(u16, u16), MemoryError>((3, 0)),
        wish(req) == 0 && within_region(s0.device, req) && !some_plugged(s0.device, req)
            && s0.device.plugged + many(req) * s0.device.block > s0.status.requested_size_mib
            * 0x10_0000 ==> s1 == s0 && r == Ok::<(u16, u16), MemoryError>((1, 0)),
        wish(req) == 1 && within_region(s0.device, req) && every_plugged(s0.device, req) && (
        exists|a: u64| named(s0.device, req, a) && #[trigger] in_use(s0.device, pinned, a)) ==> s1
            == s0 && r == Ok::<
            (u16, u16),
            MemoryError,
        >((2, 0)),
        wish(req) == 2 && (exists|a: u64|
            s0.device.blocks.contains(a) && #[trigger] in_use(s0.device, pinned, a)) ==> s1 == s0 && r == Ok::<
            (u16, u16),
            MemoryError,
        >((2, 0)),
{
    lemma_fields(req);
    let d = s0.device;
    let s = d.block as int;
    crate::memory::lemma_block_positive(s0.status.block_size_mib);
    if within_region(d, req) {
        let all = row(first(req) as u64, many(req), d.block);
        lemma_plugged(d, req);
        let target = s0.status.requested_size_mib as int;
        let size = s0.status.block_size_mib as int;
        let n = d.blocks.len() + many(req);
        assert(n > target / size <==> n * s > target * MIB) by {
            lemma_over(n, target, size);
        }
        assert(n * s == d.plugged + many(req) * s) by (nonlinear_arith)
            requires
                n == d.blocks.len() + many(req),
                d.plugged == d.blocks.len() * s,
        ;
        if wish(req) == 1 && every_plugged(d, req) && exists|a: u64|
            named(d, req, a) && #[trigger] in_use(d, pinned, a) {
            let a = choose|a: u64| named(d, req, a) && #[trigger] in_use(d, pinned, a);
            let (j, x) = choose|j: int, x: int|
                0 <= j < pinned.len() && #[trigger] lent(pinned[j], x) && a <= x < a + d.block;
            lemma_named(d, req, a);
            let i = choose|i: int| 0 <= i < all.len() && all[i] == a;
            lemma_row(d, first(req) as u64, many(req));
            assert(d.slot(all[i]));
            assert(crate::devices::memory::pins(pinned[j], all[i], d.block));
            assert(any_pinned(all, pinned, d.block));
        }
    }
    if wish(req) == 2 && exists|a: u64| d.blocks.contains(a) && #[trigger] in_use(d, pinned, a) {
        let a = choose|a: u64| d.blocks.contains(a) && #[trigger] in_use(d, pinned, a);
        let (j, x) = choose|j: int, x: int|
            0 <= j < pinned.len() && #[trigger] lent(pinned[j], x) && a <= x < a + d.block;
        let all = all_blocks(d);
        unplug_all_leaves_nothing(d);
        lemma_toggled(d.blocks, all, false);
        assert(d.slot(a));
        assert(!crate::devices::memory::toggled(d.blocks, all, false).contains(a));
        assert(all.contains(a));
        let i = choose|i: int| 0 <= i < all.len() && all[i] == a;
        assert(crate::devices::memory::pins(pinned[j], all[i], d.block));
        assert(any_pinned(all, pinned, d.block));
    }
}

proof fn lemma_over(n: int, target: int, size: int)
    requires
        size > 0,
        target >= 0,
    ensures
        n > target / size <==> n * (size * MIB) > target * MIB,
{
    vstd::arithmetic::div_mod::lemma_fundamental_div_mod(target, size);
    let q = target / size;
    let e = target % size;
    assert(n > q <==> n * (size * MIB) > target * MIB) by (nonlinear_arith)
        requires
            target == size * q + e,
            0 <= e < size,
            MIB > 0,
    ;
}

/// Where every call to the platform is granted, a change happens, unless there is
/// no memory to plug.
proof fn lemma_change_done(
    s0: Machine,
    addresses: Seq<u64>,
    plug: bool,
    s: Machine,
    c: Result<bool, MemoryError>,
)
    requires
        change_rel(s0, addresses, plug, s, c),
        all_granted(s.maps, s0.maps.len() as int),
    ensures
        c == Ok::<bool, MemoryError>(true) || (plug && (c matches Err(e) && e is GuestMemory)),
{
    let list = choose|list: Seq<Piece>| #[trigger]
        chosen(s0.device, addresses, plug, list) && list_rel(s0, addresses, list, plug, s, c);
    if !(c == Ok::<bool, MemoryError>(true) || (plug && (c matches Err(e) && e is GuestMemory))) {
        let (k, e, answers) = choose|
            k: int,
            e: MemoryError,
            answers: Seq<Result<(), MemoryError>>,
        | #[trigger]
            failed_at(s0, list, plug, k, e, answers, s.maps);
        let n = s0.maps.len() + k;
        let before = s0.maps + granted(list.take(k), plug);
        assert(before.len() == n);
        let refused = asked(list[k], plug, Err(e));
        assert(s.maps =~= before + seq![refused] + undoing(list.take(k), plug, answers));
        assert(s.maps[n] == refused);
        assert(false);
    }
}

/// A change that did not happen left everything but the calls to the platform,
/// and what a failed rollback keeps, as it was.
proof fn lemma_change_kept(
    s0: Machine,
    addresses: Seq<u64>,
    plug: bool,
    s: Machine,
    c: Result<bool, MemoryError>,
)
    requires
        change_rel(s0, addresses, plug, s, c),
    ensures
        c != Ok::<bool, MemoryError>(true) ==> {
            &&& s.device == (MemView { retained: s.device.retained, ..s0.device })
            &&& s.status == s0.status
            &&& s.memory == s0.memory
        },
        c == Ok::<bool, MemoryError>(false) ==> s.device == s0.device,
{
    let list = choose|list: Seq<Piece>| #[trigger]
        chosen(s0.device, addresses, plug, list) && list_rel(s0, addresses, list, plug, s, c);
}

/// A call that maps, or unmaps, a block of this size at `a`, and is granted.
pub open spec fn moves(call: VmCall, plug: bool, a: int, block: u64) -> bool {
    match call {
        VmCall::Mapped { piece, result } => plug && result is Ok && piece.range.0 == a
            && piece.range.1 == block,
        VmCall::Unmapped { piece, result } => !plug && result is Ok && piece.range.0 == a
            && piece.range.1 == block,
        _ => false,
    }
}

proof fn lemma_change_calls(s0: Machine, addresses: Seq<u64>, plug: bool, s: Machine)
    requires
        change_rel(s0, addresses, plug, s, Ok(true)),
    ensures
        s.maps.len() == s0.maps.len() + addresses.len(),
        s.maps.take(s0.maps.len() as int) == s0.maps,
        forall|i: int|
            0 <= i < addresses.len() ==> moves(
                s.maps[s0.maps.len() + i],
                plug,
                (#[trigger] addresses[i]) as int,
                s0.device.block,
            ),
{
    let list = choose|list: Seq<Piece>| #[trigger]
        chosen(s0.device, addresses, plug, list) && list_rel(
            s0,
            addresses,
            list,
            plug,
            s,
            Ok(true),
        );
    let n = s0.maps.len() as int;
    assert(s.maps =~= s0.maps + granted(list, plug));
    assert(s.maps.take(n) =~= s0.maps);
    assert forall|i: int| 0 <= i < addresses.len() implies moves(
        s.maps[n + i],
        plug,
        (#[trigger] addresses[i]) as int,
        s0.device.block,
    ) by {
        assert(list[i].range == (addresses[i], s0.device.block));
        assert(s.maps[n + i] == granted(list, plug)[i]);
    }
}

/// What is granted happens: a plug adds the named blocks, an unplug takes them
/// away, an unplug of all leaves none. The plugged size is told anew, to the
/// driver and to who watches, and nothing else of the device changes. Each block is
/// mapped, or unmapped, by the platform, in order. What is not granted leaves the
/// blocks and the sizes as they were.
pub proof fn what_is_granted_happens(
    s0: Machine,
    req: Seq<u8>,
    pinned: Seq<(u64, u64)>,
    s1: Machine,
    r: Result<(u16, u16), MemoryError>,
)
    requires
        s0.device.wf(),
        s0.device.agrees(s0.status),
        s0.device.mirrored(s0.memory),
        s0.memory.wf(),
        req.len() == 24,
        wish(req) <= 2,
        request_rel(s0, req, pinned, s1, r),
    ensures
        r == Ok::<(u16, u16), MemoryError>((0, 0)) ==> {
            let d0 = s0.device;
            let d1 = s1.device;
            let before = s0.maps.len() as int;
            &&& forall|a: u64| #[trigger]
                d1.blocks.contains(a) <==> if wish(req) == 0 {
                    d0.blocks.contains(a) || named(d0, req, a)
                } else if wish(req) == 1 {
                    d0.blocks.contains(a) && !named(d0, req, a)
                } else {
                    false
                }
            &&& d1.start == d0.start
            &&& d1.capacity == d0.capacity
            &&& d1.block == d0.block
            &&& d1.requested == d0.requested
            &&& d1.ready == d0.ready
            &&& d1.generation as int == (d0.generation + 1) % 0x1_0000_0000
            &&& d1.plugged == d1.blocks.len() * d1.block
            &&& s1.status.plugged_size_mib == d1.plugged / 0x10_0000
            &&& s1.status == (MemoryStatus {
                plugged_size_mib: s1.status.plugged_size_mib,
                ..s0.status
            })
            &&& s1.maps.take(before) == s0.maps
            &&& wish(req) != 2 ==> s1.maps.len() == before + many(req) && forall|i: int|
                0 <= i < many(req) ==> moves(
                    #[trigger] s1.maps[before + i],
                    wish(req) == 0,
                    first(req) + i * d0.block,
                    d0.block,
                )
            &&& wish(req) == 2 ==> forall|i: int|
                before <= i < s1.maps.len() ==> (#[trigger] s1.maps[i]) is Unmapped
        },
        r != Ok::<(u16, u16), MemoryError>((0, 0)) ==> {
            &&& s1.device == (MemView { retained: s1.device.retained, ..s0.device })
            &&& s1.status == s0.status
            &&& s1.memory == s0.memory
            &&& r is Ok ==> s1.device == s0.device
        },
{
    lemma_fields(req);
    let d = s0.device;
    let verdict = decide(d, s0.status, req, pinned);
    if let Verdict::Change { addresses, plug } = verdict {
        let (s, c) = choose|s: Machine, c: Result<bool, MemoryError>|
            #[trigger] change_rel(s0, addresses, plug, s, c) && match c {
                Err(e) => s1 == s && r == Err::<(u16, u16), MemoryError>(e),
                Ok(false) => s1 == s && r == Ok::<(u16, u16), MemoryError>((2, 0)),
                Ok(true) => s1 == settled(s) && r == Ok::<(u16, u16), MemoryError>((0, 0)),
            };
        lemma_change_kept(s0, addresses, plug, s, c);
        if c == Ok::<bool, MemoryError>(true) {
            lemma_toggled(d.blocks, addresses, plug);
            lemma_change_calls(s0, addresses, plug, s);
            let before = s0.maps.len() as int;
            assert(s.device.blocks == crate::devices::memory::toggled(d.blocks, addresses, plug));
            if wish(req) == 2 {
                unplug_all_leaves_nothing(d);
            } else {
                lemma_row(d, first(req) as u64, many(req));
            }
            lemma_after_change(s0, addresses, plug, s);
            if wish(req) == 2 {
                unplug_all_leaves_nothing(d);
                assert forall|i: int| before <= i < s1.maps.len() implies (
                #[trigger] s1.maps[i]) is Unmapped by {
                    let j = i - before;
                    assert(moves(
                        s.maps[before + j],
                        plug,
                        (#[trigger] addresses[j]) as int,
                        d.block,
                    ));
                }
            } else {
                lemma_row(d, first(req) as u64, many(req));
                assert forall|a: u64| #[trigger] s1.device.blocks.contains(a) <==> if wish(req)
                    == 0 {
                    d.blocks.contains(a) || named(d, req, a)
                } else {
                    d.blocks.contains(a) && !named(d, req, a)
                } by {
                    lemma_named(d, req, a);
                }
                assert forall|i: int| 0 <= i < many(req) implies moves(
                    #[trigger] s1.maps[before + i],
                    wish(req) == 0,
                    first(req) + i * d.block,
                    d.block,
                ) by {
                    assert(addresses[i] == first(req) + i * d.block);
                }
            }
        }
    }
}

/// What can be granted is tried: a plug of free blocks up to the target, an unplug
/// of plugged blocks that nothing lent touches. It happens where the platform
/// grants each call, unless the host has no memory for a plug.
pub proof fn what_can_be_is_granted(
    s0: Machine,
    req: Seq<u8>,
    pinned: Seq<(u64, u64)>,
    s1: Machine,
    r: Result<(u16, u16), MemoryError>,
)
    requires
        s0.device.wf(),
        s0.device.agrees(s0.status),
        req.len() == 24,
        request_rel(s0, req, pinned, s1, r),
        all_granted(s1.maps, s0.maps.len() as int),
        ({
            let d = s0.device;
            ||| wish(req) == 0 && within_region(d, req) && !some_plugged(d, req) && d.plugged
                + many(req) * d.block <= s0.status.requested_size_mib * 0x10_0000
            ||| wish(req) == 1 && within_region(d, req) && every_plugged(d, req) && forall|
                a: u64,
                j: int,
            |
                #![trigger named(d, req, a), pinned[j]]
                named(d, req, a) && 0 <= j < pinned.len() ==> pinned[j].0 + pinned[j].1 <= a || a
                    + d.block <= pinned[j].0
            ||| wish(req) == 2 && forall|a: u64, j: int|
                #![trigger d.blocks.contains(a), pinned[j]]
                d.blocks.contains(a) && 0 <= j < pinned.len() ==> pinned[j].0 + pinned[j].1 <= a
                    || a + d.block <= pinned[j].0
        }),
    ensures
        r == Ok::<(u16, u16), MemoryError>((0, 0)) || (wish(req) == 0 && (r matches Err(e)
            && e is GuestMemory)),
{
    lemma_fields(req);
    let d = s0.device;
    let s = d.block as int;
    crate::memory::lemma_block_positive(s0.status.block_size_mib);
    let all = row(first(req) as u64, many(req), d.block);
    if wish(req) == 2 {
        let every = all_blocks(d);
        unplug_all_leaves_nothing(d);
        assert(!any_pinned(every, pinned, d.block)) by {
            if any_pinned(every, pinned, d.block) {
                let (i, j) = choose|i: int, j: int|
                    0 <= i < every.len() && 0 <= j < pinned.len()
                        && #[trigger] crate::devices::memory::pins(pinned[j], every[i], d.block);
                assert(d.blocks.contains(every[i]));
                assert(pinned[j].0 + pinned[j].1 <= every[i] || every[i] + d.block <= pinned[j].0);
            }
        }
    } else {
        lemma_plugged(d, req);
        let target = s0.status.requested_size_mib as int;
        let size = s0.status.block_size_mib as int;
        let n = d.blocks.len() + many(req);
        lemma_over(n, target, size);
        assert(n * s == d.plugged + many(req) * s) by (nonlinear_arith)
            requires
                n == d.blocks.len() + many(req),
                d.plugged == d.blocks.len() * s,
        ;
        if wish(req) == 1 {
            assert(!any_pinned(all, pinned, d.block)) by {
                if any_pinned(all, pinned, d.block) {
                    let (i, j) = choose|i: int, j: int|
                        0 <= i < all.len() && 0 <= j < pinned.len()
                            && #[trigger] crate::devices::memory::pins(pinned[j], all[i], d.block);
                    lemma_named(d, req, all[i]);
                    assert(all.contains(all[i]));
                    assert(named(d, req, all[i]));
                    assert(pinned[j].0 + pinned[j].1 <= all[i] || all[i] + d.block <= pinned[j].0);
                }
            }
        }
    }
    let verdict = decide(d, s0.status, req, pinned);
    let addresses = verdict->addresses;
    let plug = verdict->plug;
    let (x, c) = choose|s: Machine, c: Result<bool, MemoryError>|
        #[trigger] change_rel(s0, addresses, plug, s, c) && match c {
            Err(e) => s1 == s && r == Err::<(u16, u16), MemoryError>(e),
            Ok(false) => s1 == s && r == Ok::<(u16, u16), MemoryError>((2, 0)),
            Ok(true) => s1 == settled(s) && r == Ok::<(u16, u16), MemoryError>((0, 0)),
        };
    lemma_change_done(s0, addresses, plug, x, c);
}

/// The bytes of a chain that the device may write, or those that it may read.
pub open spec fn side(desc: Seq<Descriptor>, writable: bool) -> Seq<int>
    decreases desc.len(),
{
    if desc.len() == 0 {
        Seq::empty()
    } else {
        let d = desc.last();
        let rest = side(desc.drop_last(), writable);
        if (d.flags & 2 != 0) == writable {
            rest + Seq::new(d.len as nat, |i: int| d.addr + i)
        } else {
            rest
        }
    }
}

proof fn lemma_side(desc: Seq<Descriptor>, writable: bool)
    ensures
        chain_places(part(desc, writable)) == side(desc, writable),
        forall|regions: Seq<(u64, u64)>| #[trigger]
            reachable(regions, desc) ==> reachable(regions, part(desc, writable)),
    decreases desc.len(),
{
    reveal(Seq::filter);
    if desc.len() > 0 {
        let fewer = desc.drop_last();
        let d = desc.last();
        let f = d.flags;
        lemma_side(fewer, writable);
        assert((f / 2) % 2 == 1 <==> f & 2 != 0) by (bit_vector);
        if d.writable() == writable {
            assert(part(desc, writable) =~= part(fewer, writable).push(d));
            assert(part(desc, writable).drop_last() =~= part(fewer, writable));
            assert(crate::devices::places::from(d.addr as int, d.len as int) =~= Seq::new(
                d.len as nat,
                |i: int| d.addr + i,
            ));
        } else {
            assert(part(desc, writable) =~= part(fewer, writable));
        }
        assert forall|regions: Seq<(u64, u64)>| #[trigger] reachable(regions, desc) implies reachable(
            regions,
            part(desc, writable),
        ) by {
            assert(reachable(regions, fewer)) by {
                assert forall|i: int| 0 <= i < fewer.len() implies crate::guest::covers(
                    regions,
                    (#[trigger] fewer[i]).addr as int,
                    fewer[i].len as int,
                ) by {
                    assert(fewer[i] == desc[i]);
                }
            }
            assert(desc[desc.len() - 1] == d);
            let p = part(desc, writable);
            assert forall|i: int| 0 <= i < p.len() implies crate::guest::covers(
                regions,
                (#[trigger] p[i]).addr as int,
                p[i].len as int,
            ) by {
                if i < part(fewer, writable).len() {
                    assert(p[i] == part(fewer, writable)[i]);
                }
            }
        }
    } else {
        assert(part(desc, writable) =~= Seq::empty());
    }
}

/// Reading, or writing, the first bytes of one side of a chain.
proof fn lemma_transfer(
    regions: Seq<(u64, u64)>,
    desc: Seq<Descriptor>,
    writable: bool,
    data: Seq<u8>,
)
    requires
        ordered(regions),
        reachable(regions, desc),
        data.len() <= length(part(desc, writable)),
    ensures
        side(desc, writable).len() == length(part(desc, writable)),
        ({
            let parts = span(spread(regions, part(desc, writable)), 0, data.len() as int);
            &&& trace(reads(parts, data)) == laid(
                side(desc, writable).take(data.len() as int),
                data,
            )
            &&& trace(writes(parts, data)) == laid(
                side(desc, writable).take(data.len() as int),
                data,
            )
        }),
{
    lemma_side(desc, writable);
    let some = part(desc, writable);
    let all = spread(regions, some);
    let n = data.len() as int;
    segments_are_the_bytes_of_the_chain(regions, some);
    crate::devices::places::lemma_places_len(all);
    crate::devices::buffers::spread_is_complete(regions, some);
    a_span_is_a_part_of_the_bytes(all, 0, n);
    let parts = span(all, 0, n);
    crate::devices::buffers::lemma_span(regions, all, 0, n);
    assert(places(all).subrange(0, n) =~= side(desc, writable).take(n));
    transfers_go_byte_by_byte(parts, data);
}

/// What the device did with one chain: it read the request `req` from the 24 bytes
/// that the chain lends for reading, with `input`, and put the answer in the first
/// ten of those that it lends for writing, with `output`.
pub open spec fn exchanged(
    s0: Machine,
    pinned: Seq<(u64, u64)>,
    chain: (u16, Seq<Descriptor>),
    m: Memory,
    req: Seq<u8>,
    s: Machine,
    code: u16,
    state: u16,
    input: Seq<Access>,
    output: Seq<Access>,
    last: Memory,
) -> bool {
    let bytes = seq![
        (code % 0x100) as u8,
        (code / 0x100) as u8,
        0u8,
        0u8,
        0u8,
        0u8,
        0u8,
        0u8,
        (state % 0x100) as u8,
        (state / 0x100) as u8,
    ];
    &&& side(chain.1, false).len() == 24
    &&& side(chain.1, true).len() >= 10
    &&& req.len() == 24
    &&& trace(input) == laid(side(chain.1, false), req)
    &&& request_rel(
        Machine { memory: Memory { accesses: m.accesses + input, ..m }, ..s0 },
        req,
        pinned + own_pins(chain.1),
        s,
        Ok((code, state)),
    )
    &&& trace(output) == laid(side(chain.1, true).take(10), bytes)
    &&& last.accesses.len() == s.memory.accesses.len() + output.len() + 1
    &&& last.accesses.drop_last() == s.memory.accesses + output
    &&& last.accesses.last() matches Access::Used { addr, index, head, len, ok } && head == chain.0
        && len == 10 && ok
}

#[verifier::rlimit(60)]
proof fn lemma_exchanged(
    s0: Machine,
    pinned: Seq<(u64, u64)>,
    q: QueuesView,
    m: Memory,
    chain: (u16, Seq<Descriptor>),
    req: Seq<u8>,
    s: Machine,
    a: Result<(u16, u16), MemoryError>,
    s1: Machine,
    q1: QueuesView,
) -> (parts: (u16, u16, Seq<Access>, Seq<Access>))
    requires
        q.rings.len() > 0,
        s0.device.wf(),
        s0.device.mirrored(s0.memory),
        s0.memory.wf(),
        m.same(s0.memory),
        crate::devices::queues::chain_sound(m.regions, chain.1),
        no_request(chain.1) is None,
        served(s0.remember(m), q, pinned, chain, req, s, a, s1, q1, Ok(true)),
    ensures
        exchanged(
            s0,
            pinned,
            chain,
            m,
            req,
            s,
            parts.0,
            parts.1,
            parts.2,
            parts.3,
            s1.memory,
        ),
        s1.device == s.device,
        s1.status == s.status,
        s1.maps == s.maps,
        q1.rings[0].next_avail == q.rings[0].next_avail,
        q1.rings[0].next_used == (q.rings[0].next_used + 1) % 0x1_0000,
        q1.interrupt == q.interrupt | 1,
{
    let r = Ok::<bool, DeviceError>(true);
    let desc = chain.1;
    assert(reachable(m.regions, desc)) by {
        assert forall|i: int| 0 <= i < desc.len() implies crate::guest::covers(
            m.regions,
            (#[trigger] desc[i]).addr as int,
            desc[i].len as int,
        ) by {
            assert(desc[i].sound(m.regions));
        }
    }
    lemma_side(desc, false);
    lemma_side(desc, true);
    let read = length(part(desc, false));
    let write = length(part(desc, true));
    segments_are_the_bytes_of_the_chain(m.regions, part(desc, false));
    segments_are_the_bytes_of_the_chain(m.regions, part(desc, true));
    assert(read == 24 && write >= 10);
    let (code, state) = a->Ok_0;
    let parts = span(spread(m.regions, part(desc, false)), 0, 24);
    let input = reads(parts, req);
    lemma_transfer(m.regions, desc, false, req);
    assert(side(desc, false).take(24) =~= side(desc, false));
    let asked = s0.remember(m).remember(m.after_all(input));
    let all = pinned + own_pins(desc);
    lemma_memory_kept(asked, req, all, s, a);
    assert(reachable(s.memory.regions, desc)) by {
        assert forall|i: int| 0 <= i < desc.len() implies crate::guest::covers(
            s.memory.regions,
            (#[trigger] desc[i]).addr as int,
            desc[i].len as int,
        ) by {
            let p = pinned.len() + i;
            assert(all[p] == own_pins(desc)[i]);
            crate::devices::memory::pinned_memory_stays_mapped(asked, req, all, s, a, p);
        }
    }
    let answer = crate::devices::memory::answer(code, state);
    let bytes = seq![
        (code % 0x100) as u8,
        (code / 0x100) as u8,
        0u8,
        0u8,
        0u8,
        0u8,
        0u8,
        0u8,
        (state % 0x100) as u8,
        (state / 0x100) as u8,
    ];
    assert(answer =~= bytes);
    let output = writes(span(spread(s.memory.regions, part(desc, true)), 0, 10), answer);
    lemma_transfer(s.memory.regions, desc, true, answer);
    let done = choose|done: Result<(), DeviceError>|
        {
            &&& #[trigger] complete_rel(
                q,
                0,
                s.memory.after_all(output),
                chain.0,
                10,
                q1,
                s1.memory,
                done,
            )
            &&& s1 == s.remember(s1.memory)
            &&& r == match done {
                Ok(()) => Ok::<bool, DeviceError>(true),
                Err(e) => Err(e),
            }
        };
    lemma_complete(q, 0, s.memory.after_all(output), chain.0, 10, q1, s1.memory, done);
    assert(s1.memory.accesses.drop_last() =~= s.memory.accesses + output);
    assert(asked == Machine { memory: Memory { accesses: m.accesses + input, ..m }, ..s0 });
    (code, state, input, output)
}

/// Every chain that is served holds a request of 24 bytes, and its driver finds
/// the answer to that request in the chain: the code, six bytes of nothing and the
/// state. The chain is handed back with ten bytes written.
pub proof fn drivers_get_their_answer(
    s0: Machine,
    q0: QueuesView,
    pinned: Seq<(u64, u64)>,
    s1: Machine,
    q1: QueuesView,
)
    requires
        q0.wf(),
        q0.rings.len() > 0,
        s0.device.wf(),
        s0.device.agrees(s0.status),
        s0.device.mirrored(s0.memory),
        s0.memory.wf(),
        turn_rel(s0, q0, pinned, s1, q1, Ok(true)),
    ensures
        exists|
            q: QueuesView,
            m: Memory,
            chain: (u16, Seq<Descriptor>),
            req: Seq<u8>,
            s: Machine,
            code: u16,
            state: u16,
            input: Seq<Access>,
            output: Seq<Access>,
        |
            {
                &&& #[trigger] through((q, m, chain, req, s, code, state, input, output))
                &&& pop_rel(q0, 0, s0.memory, q, m, Ok(Some(chain)))
                &&& exchanged(
                    s0,
                    pinned,
                    chain,
                    m,
                    req,
                    s,
                    code,
                    state,
                    input,
                    output,
                    s1.memory,
                )
                &&& s1.device == s.device
                &&& s1.status == s.status
                &&& s1.maps == s.maps
            },
        q1.rings[0].next_avail == (q0.rings[0].next_avail + 1) % 0x1_0000,
        q1.rings[0].next_used == (q0.rings[0].next_used + 1) % 0x1_0000,
        q1.interrupt == q0.interrupt | 1,
{
    let r = Ok::<bool, DeviceError>(true);
    let (q, m, c) = choose|
        q: QueuesView,
        m: Memory,
        c: Result<Option<(u16, Seq<Descriptor>)>, DeviceError>,
    |
        #[trigger] pop_rel(q0, 0, s0.memory, q, m, c) && match c {
            Err(e) => s1 == s0.remember(m) && q1 == q && r == Err::<bool, DeviceError>(e),
            Ok(None) => s1 == s0.remember(m) && q1 == q && r == Ok::<bool, DeviceError>(false),
            Ok(Some(chain)) => match no_request(chain.1) {
                Some(e) => s1 == s0.remember(m) && q1 == q && r == Err::<bool, DeviceError>(
                    DeviceError::Memory(e),
                ),
                None => exists|req: Seq<u8>, s: Machine, a: Result<(u16, u16), MemoryError>|
                    #[trigger] through((req, s, a)) && served(
                        s0.remember(m),
                        q,
                        pinned,
                        chain,
                        req,
                        s,
                        a,
                        s1,
                        q1,
                        r,
                    ),
            },
        };
    let chain = c->Ok_0->0;
    let (req, s, a) = choose|req: Seq<u8>, s: Machine, a: Result<(u16, u16), MemoryError>|
        #[trigger] through((req, s, a)) && served(
            s0.remember(m),
            q,
            pinned,
            chain,
            req,
            s,
            a,
            s1,
            q1,
            r,
        );
    lemma_pop(q0, 0, s0.memory, q, m, c);
    crate::devices::queues::pop_gives_sound_chain(q0, 0, s0.memory, q, m, c);
    let (code, state, input, output) = lemma_exchanged(
        s0,
        pinned,
        q,
        m,
        chain,
        req,
        s,
        a,
        s1,
        q1,
    );
    assert(through((q, m, chain, req, s, code, state, input, output)));
}

/// The memory stays in order, whatever request is served.
proof fn lemma_memory_kept(
    s0: Machine,
    req: Seq<u8>,
    pinned: Seq<(u64, u64)>,
    s1: Machine,
    r: Result<(u16, u16), MemoryError>,
)
    requires
        s0.device.wf(),
        s0.device.mirrored(s0.memory),
        s0.memory.wf(),
        req.len() == 24,
        request_rel(s0, req, pinned, s1, r),
    ensures
        s1.memory.wf(),
{
    lemma_fields(req);
    let d = s0.device;
    let verdict = decide(d, s0.status, req, pinned);
    if let Verdict::Change { addresses, plug } = verdict {
        let (s, c) = choose|s: Machine, c: Result<bool, MemoryError>|
            #[trigger] change_rel(s0, addresses, plug, s, c) && match c {
                Err(e) => s1 == s && r == Err::<(u16, u16), MemoryError>(e),
                Ok(false) => s1 == s && r == Ok::<(u16, u16), MemoryError>((2, 0)),
                Ok(true) => s1 == settled(s) && r == Ok::<(u16, u16), MemoryError>((0, 0)),
            };
        lemma_change_kept(s0, addresses, plug, s, c);
        if c == Ok::<bool, MemoryError>(true) {
            if wish(req) == 2 {
                unplug_all_leaves_nothing(d);
            } else {
                lemma_row(d, first(req) as u64, many(req));
            }
            lemma_after_change(s0, addresses, plug, s);
        }
    }
}

/// A turn of the device serves every chain that waits, up to 128 of them: each is
/// taken and handed back, and where there were fewer, the last look found none.
pub proof fn waiting_requests_are_served(
    s0: Machine,
    q0: QueuesView,
    pinned: Seq<(u64, u64)>,
    s1: Machine,
    q1: QueuesView,
)
    requires
        q0.wf(),
        q0.rings.len() > 0,
        process_rel(s0, q0, pinned, s1, q1, Ok(())),
    ensures
        exists|k: int|
            {
                &&& #[trigger] through(k)
                &&& 0 <= k <= 128
                &&& q1.rings[0].next_avail == (q0.rings[0].next_avail + k) % 0x1_0000
                &&& q1.rings[0].next_used == (q0.rings[0].next_used + k) % 0x1_0000
                &&& k < 128 ==> s1.memory.accesses.len() > 0 && s1.memory.accesses.last() == (
                Access::AvailIdx {
                    addr: q1.rings[0].avail_ring,
                    value: Some(q1.rings[0].next_avail),
                })
            },
{
    let r = Ok::<(), DeviceError>(());
    let t = choose|t: Result<bool, DeviceError>|
        {
            &&& #[trigger] through(t)
            &&& turns_rel(128, s0, q0, pinned, s1, q1, t)
            &&& r == match t {
                Ok(_) => Ok::<(), DeviceError>(()),
                Err(e) => Err(e),
            }
        };
    let k = lemma_turns(128, s0, q0, pinned, s1, q1, t);
    assert(through(k));
}

proof fn lemma_one_more(x: int, k: int)
    ensures
        ((x + k) % 0x1_0000 + 1) % 0x1_0000 == (x + (k + 1)) % 0x1_0000,
{
}

#[verifier::rlimit(60)]
proof fn lemma_turns(
    n: nat,
    s0: Machine,
    q0: QueuesView,
    pinned: Seq<(u64, u64)>,
    s1: Machine,
    q1: QueuesView,
    r: Result<bool, DeviceError>,
) -> (k: int)
    requires
        q0.rings.len() > 0,
        turns_rel(n, s0, q0, pinned, s1, q1, r),
    ensures
        q1.rings.len() == q0.rings.len(),
        r is Ok ==> {
            &&& 0 <= k <= n
            &&& r->Ok_0 ==> k == n
            &&& q1.rings[0].next_avail == (q0.rings[0].next_avail + k) % 0x1_0000
            &&& q1.rings[0].next_used == (q0.rings[0].next_used + k) % 0x1_0000
            &&& !r->Ok_0 ==> s1.memory.accesses.len() > 0 && s1.memory.accesses.last() == (
            Access::AvailIdx {
                addr: q1.rings[0].avail_ring,
                value: Some(q1.rings[0].next_avail),
            })
        },
    decreases n,
{
    if n == 0 {
        0
    } else {
        let (s, q, e) = choose|s: Machine, q: QueuesView, e: Result<bool, DeviceError>|
            {
                &&& #[trigger] through((s, q, e))
                &&& turns_rel((n - 1) as nat, s0, q0, pinned, s, q, e)
                &&& if e == Ok::<bool, DeviceError>(true) {
                    turn_rel(s, q, pinned, s1, q1, r)
                } else {
                    s1 == s && q1 == q && r == e
                }
            };
        let k = lemma_turns((n - 1) as nat, s0, q0, pinned, s, q, e);
        if e == Ok::<bool, DeviceError>(true) {
            lemma_turn(s, q, pinned, s1, q1, r);
            if r == Ok::<bool, DeviceError>(true) {
                lemma_one_more(q0.rings[0].next_avail as int, k);
                lemma_one_more(q0.rings[0].next_used as int, k);
                k + 1
            } else {
                k
            }
        } else {
            k
        }
    }
}

proof fn lemma_turn(
    s0: Machine,
    q0: QueuesView,
    pinned: Seq<(u64, u64)>,
    s1: Machine,
    q1: QueuesView,
    r: Result<bool, DeviceError>,
)
    requires
        q0.rings.len() > 0,
        turn_rel(s0, q0, pinned, s1, q1, r),
    ensures
        q1.rings.len() == q0.rings.len(),
        r == Ok::<bool, DeviceError>(true) ==> {
            &&& q1.rings[0].next_avail == (q0.rings[0].next_avail + 1) % 0x1_0000
            &&& q1.rings[0].next_used == (q0.rings[0].next_used + 1) % 0x1_0000
        },
        r == Ok::<bool, DeviceError>(false) ==> {
            &&& q1 == q0
            &&& s1.memory.accesses.len() > 0 && s1.memory.accesses.last() == (Access::AvailIdx {
                addr: q0.rings[0].avail_ring,
                value: Some(q0.rings[0].next_avail),
            })
        },
{
    let (q, m, c) = choose|
        q: QueuesView,
        m: Memory,
        c: Result<Option<(u16, Seq<Descriptor>)>, DeviceError>,
    |
        #[trigger] pop_rel(q0, 0, s0.memory, q, m, c) && match c {
            Err(e) => s1 == s0.remember(m) && q1 == q && r == Err::<bool, DeviceError>(e),
            Ok(None) => s1 == s0.remember(m) && q1 == q && r == Ok::<bool, DeviceError>(false),
            Ok(Some(chain)) => match no_request(chain.1) {
                Some(e) => s1 == s0.remember(m) && q1 == q && r == Err::<bool, DeviceError>(
                    DeviceError::Memory(e),
                ),
                None => exists|req: Seq<u8>, s: Machine, a: Result<(u16, u16), MemoryError>|
                    #[trigger] through((req, s, a)) && served(
                        s0.remember(m),
                        q,
                        pinned,
                        chain,
                        req,
                        s,
                        a,
                        s1,
                        q1,
                        r,
                    ),
            },
        };
    lemma_pop(q0, 0, s0.memory, q, m, c);
    if c == Ok::<Option<(u16, Seq<Descriptor>)>, DeviceError>(None) {
        crate::devices::chains::an_empty_queue_is_found_empty(q0, 0, s0.memory, q, m);
    }
    if c is Ok && c->Ok_0 is Some && no_request((c->Ok_0->0).1) is None {
        let chain = c->Ok_0->0;
        let (req, s, a) = choose|req: Seq<u8>, s: Machine, a: Result<(u16, u16), MemoryError>|
            #[trigger] through((req, s, a)) && served(
                s0.remember(m),
                q,
                pinned,
                chain,
                req,
                s,
                a,
                s1,
                q1,
                r,
            );
        if a is Ok {
            let (code, state) = a->Ok_0;
            let output = span(spread(s.memory.regions, part(chain.1, true)), 0, 10);
            let answer = crate::devices::memory::answer(code, state);
            let done = choose|done: Result<(), DeviceError>|
                {
                    &&& #[trigger] complete_rel(
                        q,
                        0,
                        s.memory.after_all(writes(output, answer)),
                        chain.0,
                        10,
                        q1,
                        s1.memory,
                        done,
                    )
                    &&& s1 == s.remember(s1.memory)
                    &&& r == match done {
                        Ok(()) => Ok::<bool, DeviceError>(true),
                        Err(e) => Err(e),
                    }
                };
            lemma_complete(
                q,
                0,
                s.memory.after_all(writes(output, answer)),
                chain.0,
                10,
                q1,
                s1.memory,
                done,
            );
        }
    }
}

} // verus!

//! Which layouts are accepted, and that the order of their regions does not
//! matter.
use crate::error::PlatformError;
use crate::memory::MIB;
use crate::platform::{
    accepted_regions_are_disjoint, aligned, claim, claim_ram, claim_virtio, collide,
    disjoint, named_regions, ram_total, with_claim, Claim, DeviceRequirements, IoRegion,
    IoSpace, MachineLayout, MemoryRange, VmConfig,
};
use vstd::prelude::*;

verus! {

/// A region is not empty and lies in its space.
pub open spec fn placed(space: IoSpace, address: u64, size: u64) -> bool {
    &&& 0 < size
    &&& address + size <= u64::MAX
    &&& space == IoSpace::Port ==> address + size <= 0x1_0000
}

/// The layout holds what is needed: base memory of the configured size, a UART,
/// registers for every device and, where it is wanted, a range for dynamic
/// memory, all of them apart from each other.
pub open spec fn accepted(
    layout: MachineLayout,
    config: VmConfig,
    needs: DeviceRequirements,
) -> bool {
    &&& config.vcpu_count > 0
    &&& config.memory_mib * MIB <= u64::MAX
    &&& layout.ram@.len() > 0
    &&& ram_placed(layout.ram@)
    &&& ram_total(layout.ram@) == config.memory_mib * MIB
    &&& layout.uart.size >= 8
    &&& placed(layout.uart.space, layout.uart.address, layout.uart.size)
    &&& layout.virtio@.len() == needs.devices@.len()
    &&& virtio_placed(layout.virtio@)
    &&& match (layout.hotplug, needs.hotplug) {
        (None, None) => true,
        (Some(r), Some(n)) => {
            &&& r.size == n.capacity
            &&& aligned(r.address, n.alignment)
            &&& placed(IoSpace::Mmio, r.address, r.size)
        },
        _ => false,
    }
    &&& disjoint(named_regions(layout))
}

/// Every range of base memory can be allocated and addressed.
pub open spec fn ram_placed(ram: Seq<MemoryRange>) -> bool {
    forall|i: int|
        0 <= i < ram.len() ==> placed(
            IoSpace::Mmio,
            (#[trigger] ram[i]).address,
            ram[i].size,
        ) && ram[i].size <= usize::MAX
}

/// Every device has memory-mapped registers, and enough of them.
pub open spec fn virtio_placed(virtio: Seq<IoRegion>) -> bool {
    forall|i: int|
        0 <= i < virtio.len() ==> (#[trigger] virtio[i]).space == IoSpace::Mmio && virtio[i].size
            >= 0x200 && placed(IoSpace::Mmio, virtio[i].address, virtio[i].size)
}

/// The addresses of base memory.
spec fn ram_claims(ram: Seq<MemoryRange>) -> Seq<Claim> {
    ram.map_values(|r: MemoryRange| claim(IoSpace::Mmio, r.address, r.size))
}

/// The addresses of the devices' registers.
spec fn virtio_claims(virtio: Seq<IoRegion>) -> Seq<Claim> {
    virtio.map_values(|r: IoRegion| claim(r.space, r.address, r.size))
}

/// A part of what is disjoint is disjoint.
proof fn lemma_prefix(all: Seq<Claim>, n: int)
    requires
        disjoint(all),
        0 <= n <= all.len(),
    ensures
        disjoint(all.take(n)),
{
    let part = all.take(n);
    assert forall|i: int| 0 <= i < part.len() implies (#[trigger] part[i]).address
        < part[i].end by {
        assert(part[i] == all[i]);
    }
    assert forall|i: int, j: int| 0 <= i < j < part.len() implies !#[trigger] collide(
        part[i],
        part[j],
    ) by {
        assert(!collide(all[i], all[j]));
    }
}

/// A region that lies in its space and apart from the others is taken.
proof fn lemma_taken(claims: Seq<Claim>, space: IoSpace, address: u64, size: u64)
    requires
        placed(space, address, size),
        disjoint(claims.push(claim(space, address, size))),
    ensures
        with_claim(claims, space, address, size) == Ok::<Seq<Claim>, PlatformError>(
            claims.push(claim(space, address, size)),
        ),
{
    let new = claim(space, address, size);
    let all = claims.push(new);
    assert forall|i: int| 0 <= i < claims.len() implies !#[trigger] collide(claims[i], new) by {
        assert(all[i] == claims[i] && all[claims.len() as int] == new);
        assert(!collide(all[i], all[claims.len() as int]));
    }
}

proof fn lemma_total_grows(ram: Seq<MemoryRange>)
    ensures
        ram_total(ram) >= 0,
    decreases ram.len(),
{
    if ram.len() > 0 {
        lemma_total_grows(ram.drop_last());
    }
}

proof fn lemma_ram_taken(ram: Seq<MemoryRange>)
    requires
        ram_placed(ram),
        ram_total(ram) <= u64::MAX,
        disjoint(ram_claims(ram)),
    ensures
        claim_ram(ram) == Ok::<(u64, Seq<Claim>), PlatformError>(
            (ram_total(ram) as u64, ram_claims(ram)),
        ),
    decreases ram.len(),
{
    let all = ram_claims(ram);
    if ram.len() == 0 {
        assert(all =~= Seq::empty());
    } else {
        let rest = ram.drop_last();
        let last = ram.last();
        assert(ram[ram.len() - 1] == last);
        assert(ram_placed(rest)) by {
            assert forall|i: int| 0 <= i < rest.len() implies placed(
                IoSpace::Mmio,
                (#[trigger] rest[i]).address,
                rest[i].size,
            ) && rest[i].size <= usize::MAX by {
                assert(rest[i] == ram[i]);
            }
        }
        lemma_prefix(all, rest.len() as int);
        assert(all.take(rest.len() as int) =~= ram_claims(rest));
        lemma_total_grows(rest);
        lemma_ram_taken(rest);
        assert(all =~= ram_claims(rest).push(claim(IoSpace::Mmio, last.address, last.size)));
        lemma_taken(ram_claims(rest), IoSpace::Mmio, last.address, last.size);
    }
}

proof fn lemma_virtio_taken(claims: Seq<Claim>, virtio: Seq<IoRegion>)
    requires
        virtio_placed(virtio),
        disjoint(claims + virtio_claims(virtio)),
    ensures
        claim_virtio(claims, virtio) == Ok::<Seq<Claim>, PlatformError>(
            claims + virtio_claims(virtio),
        ),
    decreases virtio.len(),
{
    let all = claims + virtio_claims(virtio);
    if virtio.len() == 0 {
        assert(all =~= claims);
    } else {
        let rest = virtio.drop_last();
        let last = virtio.last();
        assert(virtio[virtio.len() - 1] == last);
        assert(virtio_placed(rest)) by {
            assert forall|i: int| 0 <= i < rest.len() implies (#[trigger] rest[i]).space
                == IoSpace::Mmio && rest[i].size >= 0x200 && placed(
                IoSpace::Mmio,
                rest[i].address,
                rest[i].size,
            ) by {
                assert(rest[i] == virtio[i]);
            }
        }
        let before = claims + virtio_claims(rest);
        assert(all =~= before.push(claim(last.space, last.address, last.size)));
        lemma_prefix(all, before.len() as int);
        assert(all.take(before.len() as int) =~= before);
        lemma_virtio_taken(claims, rest);
        lemma_taken(before, last.space, last.address, last.size);
    }
}

proof fn lemma_ram_given(ram: Seq<MemoryRange>)
    ensures
        claim_ram(ram) is Ok ==> ram_placed(ram) && ram_total(ram) <= u64::MAX,
    decreases ram.len(),
{
    if ram.len() > 0 && claim_ram(ram) is Ok {
        let rest = ram.drop_last();
        lemma_ram_given(rest);
        crate::platform::lemma_ram_claims(rest);
        assert forall|i: int| 0 <= i < ram.len() implies placed(
            IoSpace::Mmio,
            (#[trigger] ram[i]).address,
            ram[i].size,
        ) && ram[i].size <= usize::MAX by {
            if i < rest.len() {
                assert(rest[i] == ram[i]);
            }
        }
    }
}

proof fn lemma_virtio_given(claims: Seq<Claim>, virtio: Seq<IoRegion>)
    ensures
        claim_virtio(claims, virtio) is Ok ==> virtio_placed(virtio),
    decreases virtio.len(),
{
    if virtio.len() > 0 && claim_virtio(claims, virtio) is Ok {
        let rest = virtio.drop_last();
        lemma_virtio_given(claims, rest);
        assert forall|i: int| 0 <= i < virtio.len() implies (#[trigger] virtio[i]).space
            == IoSpace::Mmio && virtio[i].size >= 0x200 && placed(
            IoSpace::Mmio,
            virtio[i].address,
            virtio[i].size,
        ) by {
            if i < rest.len() {
                assert(rest[i] == virtio[i]);
            }
        }
    }
}

/// The layouts that are accepted are exactly those that hold what is needed,
/// each region apart from the others.
pub proof fn accepted_layouts(layout: MachineLayout, config: VmConfig, needs: DeviceRequirements)
    ensures
        layout.claims(config, needs) is Ok <==> accepted(layout, config, needs),
{
    let all = named_regions(layout);
    let ram = ram_claims(layout.ram@);
    let uart = ram.push(claim(layout.uart.space, layout.uart.address, layout.uart.size));
    let virtio = uart + virtio_claims(layout.virtio@);
    if layout.claims(config, needs) is Ok {
        accepted_regions_are_disjoint(layout, config, needs);
        lemma_ram_given(layout.ram@);
        let (total, claims) = claim_ram(layout.ram@)->Ok_0;
        let with_uart = with_claim(
            claims,
            layout.uart.space,
            layout.uart.address,
            layout.uart.size,
        )->Ok_0;
        lemma_virtio_given(with_uart, layout.virtio@);
    }
    if accepted(layout, config, needs) {
        match layout.hotplug {
            None => {
                assert(all =~= virtio);
            },
            Some(r) => {
                assert(all =~= virtio.push(claim(IoSpace::Mmio, r.address, r.size)));
            },
        }
        lemma_prefix(all, ram.len() as int);
        assert(all.take(ram.len() as int) =~= ram);
        lemma_prefix(all, uart.len() as int);
        assert(all.take(uart.len() as int) =~= uart);
        lemma_prefix(all, virtio.len() as int);
        assert(all.take(virtio.len() as int) =~= virtio);
        lemma_ram_taken(layout.ram@);
        lemma_taken(ram, layout.uart.space, layout.uart.address, layout.uart.size);
        lemma_virtio_taken(uart, layout.virtio@);
        match layout.hotplug {
            None => {},
            Some(r) => {
                lemma_taken(virtio, IoSpace::Mmio, r.address, r.size);
            },
        }
    }
}

/// An element of one order is an element of the other.
proof fn lemma_one<T>(a: Seq<T>, b: Seq<T>, i: int) -> (k: int)
    requires
        a.to_multiset() == b.to_multiset(),
        0 <= i < b.len(),
    ensures
        0 <= k < a.len(),
        a[k] == b[i],
{
    a.to_multiset_ensures();
    b.to_multiset_ensures();
    assert(b.contains(b[i]));
    assert(b.to_multiset().count(b[i]) > 0);
    assert(a.to_multiset().count(b[i]) > 0);
    assert(a.contains(b[i]));
    choose|k: int| 0 <= k < a.len() && a[k] == b[i]
}

/// Two elements of one order are two elements of the other.
proof fn lemma_two<T>(a: Seq<T>, b: Seq<T>, i: int, j: int) -> (r: (int, int))
    requires
        a.to_multiset() == b.to_multiset(),
        0 <= i < b.len(),
        0 <= j < b.len(),
        i != j,
    ensures
        0 <= r.0 < a.len(),
        0 <= r.1 < a.len(),
        r.0 != r.1,
        a[r.0] == b[i],
        a[r.1] == b[j],
{
    let k = lemma_one(a, b, i);
    a.to_multiset_ensures();
    b.to_multiset_ensures();
    let c = a.remove(k);
    let d = b.remove(i);
    assert(c.to_multiset() =~= d.to_multiset());
    let at = if j < i {
        j
    } else {
        j - 1
    };
    assert(d[at] == b[j]);
    let p = lemma_one(c, d, at);
    let l = if p < k {
        p
    } else {
        p + 1
    };
    assert(a[l] == c[p]);
    (k, l)
}

proof fn lemma_total_folds(ram: Seq<MemoryRange>)
    ensures
        ram_total(ram) == ram.fold_left(0int, |sum: int, r: MemoryRange| sum + r.size),
    decreases ram.len(),
{
    if ram.len() > 0 {
        lemma_total_folds(ram.drop_last());
    }
}

/// The layout `b` names the regions of `a` in another order.
pub open spec fn reordered(a: MachineLayout, b: MachineLayout) -> bool {
    &&& a.ram@.to_multiset() == b.ram@.to_multiset()
    &&& a.virtio@.to_multiset() == b.virtio@.to_multiset()
    &&& a.uart == b.uart
    &&& a.hotplug == b.hotplug
}

/// Two regions of one layout are two regions of the other.
proof fn lemma_partners(a: MachineLayout, b: MachineLayout, i: int, j: int) -> (r: (int, int))
    requires
        reordered(a, b),
        0 <= i < j < named_regions(b).len(),
    ensures
        0 <= r.0 < named_regions(a).len(),
        0 <= r.1 < named_regions(a).len(),
        r.0 != r.1,
        named_regions(a)[r.0] == named_regions(b)[i],
        named_regions(a)[r.1] == named_regions(b)[j],
{
    a.ram@.to_multiset_ensures();
    b.ram@.to_multiset_ensures();
    a.virtio@.to_multiset_ensures();
    b.virtio@.to_multiset_ensures();
    let n = b.ram@.len() as int;
    let m = b.virtio@.len() as int;
    assert(a.ram@.len() == n && a.virtio@.len() == m);
    let r = if j < n {
        lemma_two(a.ram@, b.ram@, i, j)
    } else if n < i && j <= n + m {
        let (k, l) = lemma_two(a.virtio@, b.virtio@, i - n - 1, j - n - 1);
        (k + n + 1, l + n + 1)
    } else {
        let k = if i < n {
            lemma_one(a.ram@, b.ram@, i)
        } else if n < i {
            lemma_one(a.virtio@, b.virtio@, i - n - 1) + n + 1
        } else {
            i
        };
        let l = if n < j && j <= n + m {
            lemma_one(a.virtio@, b.virtio@, j - n - 1) + n + 1
        } else {
            j
        };
        (k, l)
    };
    r
}

proof fn lemma_reordered(
    a: MachineLayout,
    b: MachineLayout,
    config: VmConfig,
    needs: DeviceRequirements,
)
    requires
        reordered(a, b),
        accepted(a, config, needs),
    ensures
        accepted(b, config, needs),
{
    a.ram@.to_multiset_ensures();
    b.ram@.to_multiset_ensures();
    a.virtio@.to_multiset_ensures();
    b.virtio@.to_multiset_ensures();
    assert(a.ram@.len() == b.ram@.len());
    assert(a.virtio@.len() == b.virtio@.len());
    assert forall|i: int| 0 <= i < b.ram@.len() implies placed(
        IoSpace::Mmio,
        (#[trigger] b.ram@[i]).address,
        b.ram@[i].size,
    ) && b.ram@[i].size <= usize::MAX by {
        let k = lemma_one(a.ram@, b.ram@, i);
        assert(placed(IoSpace::Mmio, a.ram@[k].address, a.ram@[k].size));
    }
    assert forall|i: int| 0 <= i < b.virtio@.len() implies (#[trigger] b.virtio@[i]).space
        == IoSpace::Mmio && b.virtio@[i].size >= 0x200 && placed(
        IoSpace::Mmio,
        b.virtio@[i].address,
        b.virtio@[i].size,
    ) by {
        let k = lemma_one(a.virtio@, b.virtio@, i);
        assert(a.virtio@[k].space == IoSpace::Mmio);
    }
    let f = |sum: int, r: MemoryRange| sum + r.size;
    lemma_total_folds(a.ram@);
    lemma_total_folds(b.ram@);
    vstd::seq_lib::lemma_fold_left_permutation(a.ram@, b.ram@, f, 0int);
    let named = named_regions(a);
    let all = named_regions(b);
    assert forall|i: int, j: int| 0 <= i < j < all.len() implies !#[trigger] collide(
        all[i],
        all[j],
    ) by {
        let (k, l) = lemma_partners(a, b, i, j);
        if k < l {
            assert(!collide(named[k], named[l]));
        } else {
            assert(!collide(named[l], named[k]));
        }
    }
    assert(named.len() == all.len());
    assert forall|i: int| 0 <= i < all.len() implies (#[trigger] all[i]).address < all[i].end by {
        if all.len() > 1 {
            let (k, l) = if i == 0 {
                lemma_partners(a, b, 0, 1)
            } else {
                lemma_partners(a, b, 0, i)
            };
            assert(named[k].address < named[k].end && named[l].address < named[l].end);
        } else {
            assert(named[0].address < named[0].end);
        }
    }
}

/// Whether a layout is accepted does not depend on the order in which it names
/// base memory and devices.
pub proof fn order_of_regions_does_not_matter(
    a: MachineLayout,
    b: MachineLayout,
    config: VmConfig,
    needs: DeviceRequirements,
)
    requires
        reordered(a, b),
    ensures
        a.claims(config, needs) is Ok <==> b.claims(config, needs) is Ok,
{
    accepted_layouts(a, config, needs);
    accepted_layouts(b, config, needs);
    if accepted(a, config, needs) {
        lemma_reordered(a, b, config, needs);
    }
    if accepted(b, config, needs) {
        lemma_reordered(b, a, config, needs);
    }
}

} // verus!

//! What the guest is told of its machine, and that it is so.
use crate::arm64::hvf::platform_layout;
use crate::boot::{layout_of, load_rel, region_of, Layout, VirtioRegion};
use crate::error::{BootError, Failure, PlatformError};
use crate::fdt::{be32_bytes, be64_bytes, cells32, cells64, hex, Step};
use crate::guest::{covers, Access, Memory};
use crate::platform::{MachineLayout, MemoryRequirement, VmConfig};
use crate::tree::{
    bootargs, chosen_node, cpu_node, cpu_nodes, cpus_node, device_node, device_nodes, gic_node,
    memory_node, psci_node, root_steps, serial_node, timer_node, tree,
};
use vstd::arithmetic::power2::pow2;
use vstd::prelude::*;
use vstd::utf8::encode_utf8;

verus! {

/// The number in `n` bytes from `p` on, the highest byte first.
pub open spec fn big(v: Seq<u8>, p: int, n: nat) -> int
    decreases n,
{
    if n == 0 {
        0
    } else {
        0x100 * big(v, p, (n - 1) as nat) + v[p + n - 1]
    }
}

/// The value of the property `name` of the node whose properties start at step
/// `i`.
pub open spec fn value_at(steps: Seq<Step>, i: int, name: Seq<char>) -> Option<Seq<u8>>
    decreases steps.len() - i,
{
    if i < 0 || i >= steps.len() {
        None
    } else {
        match steps[i] {
            Step::Prop { name: n, value } => if n == name {
                Some(value)
            } else {
                value_at(steps, i + 1, name)
            },
            _ => None,
        }
    }
}

/// The node at step `k` has a property `name` of cells, four bytes each.
pub open spec fn cells_at(steps: Seq<Step>, k: int, name: Seq<char>, cells: Seq<int>) -> bool {
    value_at(steps, k + 1, name) matches Some(v) && v.len() == 4 * cells.len() && forall|i: int|
        0 <= i < cells.len() ==> big(v, 4 * i, 4) == #[trigger] cells[i]
}

/// The node at step `k` has a property `name` of numbers, eight bytes each.
pub open spec fn wides_at(steps: Seq<Step>, k: int, name: Seq<char>, cells: Seq<int>) -> bool {
    value_at(steps, k + 1, name) matches Some(v) && v.len() == 8 * cells.len() && forall|i: int|
        0 <= i < cells.len() ==> big(v, 8 * i, 8) == #[trigger] cells[i]
}

/// The node at step `k` has a property `name` with this text.
pub open spec fn text_at(steps: Seq<Step>, k: int, name: Seq<char>, text: Seq<char>) -> bool {
    value_at(steps, k + 1, name) == Some(encode_utf8(text).push(0))
}

/// The node at step `k` has the property `name` without a value.
pub open spec fn flag_at(steps: Seq<Step>, k: int, name: Seq<char>) -> bool {
    value_at(steps, k + 1, name) == Some(Seq::<u8>::empty())
}

/// A node of this name starts at step `k`, with so many nodes around it.
pub open spec fn node_at(steps: Seq<Step>, k: int, name: Seq<char>, around: int) -> bool {
    &&& 0 <= k < steps.len()
    &&& steps[k] == (Step::Begin { name })
    &&& crate::fdt::depth(steps.take(k)) == around
}

proof fn lemma_big_local(v: Seq<u8>, w: Seq<u8>, p: int, q: int, n: nat)
    requires
        0 <= p,
        0 <= q,
        p + n <= v.len(),
        q + n <= w.len(),
        v.subrange(p, p + n) == w.subrange(q, q + n),
    ensures
        big(v, p, n) == big(w, q, n),
    decreases n,
{
    if n > 0 {
        let x = v.subrange(p, p + n);
        let y = w.subrange(q, q + n);
        let m = n - 1;
        assert(v.subrange(p, p + m) =~= x.take(m));
        assert(w.subrange(q, q + m) =~= y.take(m));
        lemma_big_local(v, w, p, q, m as nat);
        assert(v[p + m] == x[m] && w[q + m] == y[m]);
    }
}

proof fn lemma_big32(v: u32)
    ensures
        be32_bytes(v).len() == 4,
        big(be32_bytes(v), 0, 4) == v,
{
    reveal_with_fuel(big, 5);
}

proof fn lemma_big64(v: u64)
    ensures
        be64_bytes(v).len() == 8,
        big(be64_bytes(v), 0, 8) == v,
{
    let hi = (v / 0x1_0000_0000) as u32;
    let lo = (v % 0x1_0000_0000) as u32;
    let b = be64_bytes(v);
    lemma_big32(hi);
    lemma_big32(lo);
    assert forall|i: int| 0 <= i < 4 implies b[i] == be32_bytes(hi)[i] && b[4 + i] == be32_bytes(
        lo,
    )[i] by {}
    reveal_with_fuel(big, 9);
}

proof fn lemma_cells32(cells: Seq<u32>, i: int)
    requires
        0 <= i < cells.len(),
    ensures
        cells32(cells).len() == 4 * cells.len(),
        big(cells32(cells), 4 * i, 4) == cells[i],
    decreases cells.len(),
{
    let fewer = cells.drop_last();
    let v = cells32(cells);
    crate::fdt::lemma_cells32_len(cells);
    crate::fdt::lemma_cells32_len(fewer);
    lemma_big32(cells.last());
    if i < fewer.len() {
        lemma_cells32(fewer, i);
        assert(v.subrange(4 * i, 4 * i + 4) =~= cells32(fewer).subrange(4 * i, 4 * i + 4));
        lemma_big_local(v, cells32(fewer), 4 * i, 4 * i, 4);
    } else {
        assert(v.subrange(4 * i, 4 * i + 4) =~= be32_bytes(cells.last()).subrange(0, 4));
        lemma_big_local(v, be32_bytes(cells.last()), 4 * i, 0, 4);
    }
}

proof fn lemma_cells64(cells: Seq<u64>, i: int)
    requires
        0 <= i < cells.len(),
    ensures
        cells64(cells).len() == 8 * cells.len(),
        big(cells64(cells), 8 * i, 8) == cells[i],
    decreases cells.len(),
{
    let fewer = cells.drop_last();
    let v = cells64(cells);
    crate::fdt::lemma_cells64_len(cells);
    crate::fdt::lemma_cells64_len(fewer);
    lemma_big64(cells.last());
    if i < fewer.len() {
        lemma_cells64(fewer, i);
        assert(v.subrange(8 * i, 8 * i + 8) =~= cells64(fewer).subrange(8 * i, 8 * i + 8));
        lemma_big_local(v, cells64(fewer), 8 * i, 8 * i, 8);
    } else {
        assert(v.subrange(8 * i, 8 * i + 8) =~= be64_bytes(cells.last()).subrange(0, 8));
        lemma_big_local(v, be64_bytes(cells.last()), 8 * i, 0, 8);
    }
}

proof fn lemma_numbers(cells: Seq<u32>, wanted: Seq<int>)
    requires
        cells.len() == wanted.len(),
        forall|i: int| 0 <= i < cells.len() ==> #[trigger] wanted[i] == cells[i],
    ensures
        cells32(cells).len() == 4 * cells.len(),
        forall|i: int|
            0 <= i < wanted.len() ==> big(cells32(cells), 4 * i, 4) == #[trigger] wanted[i],
{
    crate::fdt::lemma_cells32_len(cells);
    assert forall|i: int| 0 <= i < wanted.len() implies big(cells32(cells), 4 * i, 4)
        == #[trigger] wanted[i] by {
        lemma_cells32(cells, i);
    }
}

proof fn lemma_wides(cells: Seq<u64>, wanted: Seq<int>)
    requires
        cells.len() == wanted.len(),
        forall|i: int| 0 <= i < cells.len() ==> #[trigger] wanted[i] == cells[i],
    ensures
        cells64(cells).len() == 8 * cells.len(),
        forall|i: int|
            0 <= i < wanted.len() ==> big(cells64(cells), 8 * i, 8) == #[trigger] wanted[i],
{
    crate::fdt::lemma_cells64_len(cells);
    assert forall|i: int| 0 <= i < wanted.len() implies big(cells64(cells), 8 * i, 8)
        == #[trigger] wanted[i] by {
        lemma_cells64(cells, i);
    }
}

/// `node` stands at step `k`.
pub open spec fn stands_at(steps: Seq<Step>, k: int, node: Seq<Step>) -> bool {
    &&& 0 <= k && k + node.len() <= steps.len()
    &&& forall|j: int| 0 <= j < node.len() ==> steps[k + j] == #[trigger] node[j]
}

/// A device of the bus: told where its registers are and which interrupt it
/// raises. The number in its node counts from the first shared interrupt.
proof fn lemma_device_node(steps: Seq<Step>, k: int, d: VirtioRegion)
    requires
        stands_at(steps, k, device_node(d)),
        d.irq >= 32,
    ensures
        steps[k] == (Step::Begin { name: "virtio_mmio@"@ + hex(d.address) }),
        text_at(steps, k, "compatible"@, "virtio,mmio"@),
        wides_at(steps, k, "reg"@, seq![d.address as int, 0x1000]),
        cells_at(steps, k, "interrupts"@, seq![0int, d.irq - 32, 4]),
        flag_at(steps, k, "dma-coherent"@),
{
    reveal(device_node);
    let node = device_node(d);
    assert(node[0] == steps[k + 0] && node[1] == steps[k + 1] && node[2] == steps[k + 2]);
    assert(node[3] == steps[k + 3] && node[4] == steps[k + 4]);
    reveal_strlit("compatible");
    reveal_strlit("reg");
    reveal_strlit("interrupts");
    reveal_strlit("dma-coherent");
    assert("compatible"@.len() == 10 && "reg"@.len() == 3 && "interrupts"@.len() == 10);
    assert("compatible"@[0] != "interrupts"@[0]);
    assert("dma-coherent"@.len() == 12);
    reveal_with_fuel(value_at, 5);
    lemma_wides(
        seq![d.address, crate::boot::VIRTIO_STRIDE],
        seq![d.address as int, 0x1000],
    );
    lemma_numbers(seq![0u32, (d.irq - 32) as u32, 4], seq![0int, d.irq - 32, 4]);
}

proof fn lemma_depth_concat(a: Seq<Step>, b: Seq<Step>)
    ensures
        crate::fdt::depth(a + b) == crate::fdt::depth(a) + crate::fdt::depth(b),
    decreases b.len(),
{
    if b.len() == 0 {
        assert(a + b =~= a);
    } else {
        assert((a + b).drop_last() =~= a + b.drop_last());
        assert((a + b).last() == b.last());
        lemma_depth_concat(a, b.drop_last());
    }
}

proof fn lemma_depth_front(b: Seq<Step>)
    requires
        b.len() > 0,
    ensures
        crate::fdt::depth(b) == crate::fdt::depth(b.skip(1)) + match b[0] {
            Step::Begin { .. } => 1int,
            Step::End => -1int,
            Step::Prop { .. } => 0int,
        },
{
    let one = seq![b[0]];
    assert(b =~= one + b.skip(1));
    lemma_depth_concat(one, b.skip(1));
    assert(one.drop_last() =~= Seq::empty());
    assert(crate::fdt::depth(one.drop_last()) == 0);
    assert(crate::fdt::depth(one) == match b[0] {
        Step::Begin { .. } => 1int,
        Step::End => -1int,
        Step::Prop { .. } => 0int,
    });
}

/// Properties alone leave the depth as it is.
proof fn lemma_depth_props(b: Seq<Step>)
    requires
        forall|i: int| 0 <= i < b.len() ==> (#[trigger] b[i]) is Prop,
    ensures
        crate::fdt::depth(b) == 0,
    decreases b.len(),
{
    if b.len() > 0 {
        assert(b[b.len() - 1] is Prop);
        assert forall|i: int| 0 <= i < b.drop_last().len() implies (
        #[trigger] b.drop_last()[i]) is Prop by {
            assert(b.drop_last()[i] == b[i]);
        }
        lemma_depth_props(b.drop_last());
    }
}

/// A node without nodes in it begins, has properties and ends.
proof fn lemma_depth_leaf(b: Seq<Step>)
    requires
        b.len() >= 2,
        b[0] is Begin,
        b.last() is End,
        forall|i: int| 0 < i < b.len() - 1 ==> (#[trigger] b[i]) is Prop,
    ensures
        crate::fdt::depth(b) == 0,
{
    let c = b.drop_last();
    lemma_depth_front(c);
    assert forall|i: int| 0 <= i < c.skip(1).len() implies (#[trigger] c.skip(1)[i]) is Prop by {
        assert(c.skip(1)[i] == b[i + 1]);
    }
    lemma_depth_props(c.skip(1));
}

proof fn lemma_depths(l: Layout, initrd_len: usize, redist: u64, timers: Seq<u32>, mem: bool)
    ensures
        crate::fdt::depth(root_steps()) == 1,
        crate::fdt::depth(chosen_node(l, initrd_len, mem)) == 0,
        crate::fdt::depth(memory_node(l)) == 0,
        crate::fdt::depth(psci_node()) == 0,
        crate::fdt::depth(gic_node(redist)) == 0,
        crate::fdt::depth(timer_node(timers)) == 0,
        crate::fdt::depth(serial_node()) == 0,
{
    reveal(root_steps);
    reveal(chosen_node);
    reveal(memory_node);
    reveal(psci_node);
    reveal(gic_node);
    reveal(timer_node);
    reveal(serial_node);
    lemma_depth_leaf(chosen_node(l, initrd_len, mem));
    lemma_depth_leaf(memory_node(l));
    lemma_depth_leaf(psci_node());
    lemma_depth_leaf(gic_node(redist));
    lemma_depth_leaf(timer_node(timers));
    lemma_depth_leaf(serial_node());
    let r = root_steps();
    lemma_depth_front(r);
    assert forall|i: int| 0 <= i < r.skip(1).len() implies (#[trigger] r.skip(1)[i]) is Prop by {
        assert(r.skip(1)[i] == r[i + 1]);
    }
    lemma_depth_props(r.skip(1));
}

proof fn lemma_depth_cpus(n: nat)
    ensures
        crate::fdt::depth(cpu_nodes(n)) == 0,
    decreases n,
{
    if n > 0 {
        lemma_depth_cpus((n - 1) as nat);
        reveal(cpu_node);
        lemma_depth_leaf(cpu_node((n - 1) as u32));
        lemma_depth_concat(cpu_nodes((n - 1) as nat), cpu_node((n - 1) as u32));
    }
}

proof fn lemma_depth_devices(devices: Seq<VirtioRegion>, n: nat)
    ensures
        crate::fdt::depth(device_nodes(devices, n)) == 0,
    decreases n,
{
    if n > 0 {
        lemma_depth_devices(devices, (n - 1) as nat);
        reveal(device_node);
        lemma_depth_leaf(device_node(devices[n - 1]));
        lemma_depth_concat(device_nodes(devices, (n - 1) as nat), device_node(devices[n - 1]));
    }
}

proof fn lemma_cpus_head(count: u32) -> (head: Seq<Step>)
    ensures
        head.len() == 3,
        head[0] == (Step::Begin { name: "cpus"@ }),
        cpus_node(count) == head + cpu_nodes(count as nat) + seq![Step::End],
        crate::fdt::depth(head) == 1,
        crate::fdt::depth(cpus_node(count)) == 0,
{
    reveal(cpus_node);
    let head = cpus_node(0).take(3);
    let all = seq![
        (Step::Begin { name: "cpus"@ }),
        crate::fdt::number_prop("#address-cells"@, 1),
        crate::fdt::number_prop("#size-cells"@, 0),
    ];
    assert(head =~= all);
    lemma_depth_front(head);
    assert forall|i: int| 0 <= i < head.skip(1).len() implies (
    #[trigger] head.skip(1)[i]) is Prop by {
        assert(head.skip(1)[i] == head[i + 1]);
    }
    lemma_depth_props(head.skip(1));
    lemma_depth_cpus(count as nat);
    lemma_depth_concat(head, cpu_nodes(count as nat));
    let end = seq![Step::End];
    lemma_depth_concat(head + cpu_nodes(count as nat), end);
    lemma_depth_front(end);
    assert(end.skip(1) =~= Seq::empty());
    assert(crate::fdt::depth(end.skip(1)) == 0);
    head
}

proof fn lemma_stands(a: Seq<Step>, node: Seq<Step>, b: Seq<Step>)
    ensures
        stands_at(a + node + b, a.len() as int, node),
        (a + node + b).take(a.len() as int) == a,
{
    let t = a + node + b;
    assert(t.take(a.len() as int) =~= a);
    assert forall|j: int| 0 <= j < node.len() implies t[a.len() + j] == #[trigger] node[j] by {}
}

/// The nodes before the devices, and how deep they leave the tree.
proof fn lemma_before(
    l: Layout,
    initrd_len: usize,
    devices: Seq<VirtioRegion>,
    redist: u64,
    timers: Seq<u32>,
    count: u32,
    mem: bool,
) -> (p: Seq<Seq<Step>>)
    ensures
        p.len() == 9,
        p[0] == root_steps(),
        p[1] == p[0] + chosen_node(l, initrd_len, mem),
        p[2] == p[1] + memory_node(l),
        p[3] == p[2] + cpus_node(count),
        p[4] == p[3] + psci_node(),
        p[5] == p[4] + gic_node(redist),
        p[6] == p[5] + timer_node(timers),
        p[7] == p[6] + serial_node(),
        p[8] == p[7] + device_nodes(devices, devices.len()),
        tree(l, initrd_len, devices, redist, timers, count, mem) == p[8] + seq![Step::End],
        forall|i: int| 0 <= i < 9 ==> crate::fdt::depth(#[trigger] p[i]) == 1,
{
    lemma_depths(l, initrd_len, redist, timers, mem);
    let head = lemma_cpus_head(count);
    lemma_depth_devices(devices, devices.len());
    let p0 = root_steps();
    let p1 = p0 + chosen_node(l, initrd_len, mem);
    let p2 = p1 + memory_node(l);
    let p3 = p2 + cpus_node(count);
    let p4 = p3 + psci_node();
    let p5 = p4 + gic_node(redist);
    let p6 = p5 + timer_node(timers);
    let p7 = p6 + serial_node();
    let p8 = p7 + device_nodes(devices, devices.len());
    lemma_depth_concat(p0, chosen_node(l, initrd_len, mem));
    lemma_depth_concat(p1, memory_node(l));
    lemma_depth_concat(p2, cpus_node(count));
    lemma_depth_concat(p3, psci_node());
    lemma_depth_concat(p4, gic_node(redist));
    lemma_depth_concat(p5, timer_node(timers));
    lemma_depth_concat(p6, serial_node());
    lemma_depth_concat(p7, device_nodes(devices, devices.len()));
    seq![p0, p1, p2, p3, p4, p5, p6, p7, p8]
}

proof fn lemma_device_stands(devices: Seq<VirtioRegion>, n: nat, i: int) -> (parts: (
    Seq<Step>,
    Seq<Step>,
))
    requires
        0 <= i < n <= devices.len(),
    ensures
        device_nodes(devices, n) == parts.0 + device_node(devices[i]) + parts.1,
        crate::fdt::depth(parts.0) == 0,
    decreases n,
{
    let last = device_node(devices[n - 1]);
    if i == n - 1 {
        lemma_depth_devices(devices, (n - 1) as nat);
        let none = Seq::<Step>::empty();
        assert(device_nodes(devices, n) =~= device_nodes(devices, (n - 1) as nat) + last + none);
        (device_nodes(devices, (n - 1) as nat), none)
    } else {
        let (a, b) = lemma_device_stands(devices, (n - 1) as nat, i);
        assert(device_nodes(devices, n) =~= a + device_node(devices[i]) + (b + last));
        (a, b + last)
    }
}

proof fn lemma_cpu_stands(n: nat, i: int) -> (parts: (Seq<Step>, Seq<Step>))
    requires
        0 <= i < n <= u32::MAX,
    ensures
        cpu_nodes(n) == parts.0 + cpu_node(i as u32) + parts.1,
        crate::fdt::depth(parts.0) == 0,
    decreases n,
{
    let last = cpu_node((n - 1) as u32);
    if i == n - 1 {
        lemma_depth_cpus((n - 1) as nat);
        let none = Seq::<Step>::empty();
        assert(cpu_nodes(n) =~= cpu_nodes((n - 1) as nat) + last + none);
        (cpu_nodes((n - 1) as nat), none)
    } else {
        let (a, b) = lemma_cpu_stands((n - 1) as nat, i);
        assert(cpu_nodes(n) =~= a + cpu_node(i as u32) + (b + last));
        (a, b + last)
    }
}

/// The guest is told of every device: where its registers are, and which
/// interrupt it raises. What is told counts from the first shared interrupt of
/// the controller, number 32, so that the interrupt the guest waits for is the
/// one that comes.
pub proof fn devices_are_described(
    l: Layout,
    initrd_len: usize,
    devices: Seq<VirtioRegion>,
    redist: u64,
    timers: Seq<u32>,
    count: u32,
    mem: bool,
    i: int,
)
    requires
        0 <= i < devices.len(),
        devices[i].irq >= 32,
    ensures
        ({
            let t = tree(l, initrd_len, devices, redist, timers, count, mem);
            let d = devices[i];
            exists|k: int|
                {
                    &&& #[trigger] node_at(t, k, "virtio_mmio@"@ + hex(d.address), 1)
                    &&& text_at(t, k, "compatible"@, "virtio,mmio"@)
                    &&& wides_at(t, k, "reg"@, seq![d.address as int, 0x1000])
                    &&& value_at(t, k + 1, "interrupts"@) matches Some(v) && v.len() == 12 && big(
                        v,
                        0,
                        4,
                    ) == 0 && big(v, 4, 4) + 32 == d.irq && big(v, 8, 4) == 4
                    &&& flag_at(t, k, "dma-coherent"@)
                }
        }),
{
    let t = tree(l, initrd_len, devices, redist, timers, count, mem);
    let d = devices[i];
    let p = lemma_before(l, initrd_len, devices, redist, timers, count, mem);
    let (a, b) = lemma_device_stands(devices, devices.len(), i);
    let front = p[7] + a;
    let back = b + seq![Step::End];
    assert(t =~= front + device_node(d) + back);
    lemma_stands(front, device_node(d), back);
    lemma_depth_concat(p[7], a);
    assert(crate::fdt::depth(p[7]) == 1);
    let k = front.len() as int;
    lemma_device_node(t, k, d);
    assert(node_at(t, k, "virtio_mmio@"@ + hex(d.address), 1));
    let v = value_at(t, k + 1, "interrupts"@)->0;
    let cells = seq![0int, d.irq - 32, 4];
    assert(big(v, 4 * 0int, 4) == cells[0]);
    assert(big(v, 4 * 1int, 4) == cells[1]);
    assert(big(v, 4 * 2int, 4) == cells[2]);
}

proof fn lemma_cpu_node(steps: Seq<Step>, k: int, id: u32)
    requires
        stands_at(steps, k, cpu_node(id)),
    ensures
        steps[k] == (Step::Begin { name: "cpu@"@ + hex(id as u64) }),
        text_at(steps, k, "device_type"@, "cpu"@),
        text_at(steps, k, "compatible"@, "arm,arm-v8"@),
        cells_at(steps, k, "reg"@, seq![id as int]),
        text_at(steps, k, "enable-method"@, "psci"@),
{
    reveal(cpu_node);
    let node = cpu_node(id);
    assert(node[0] == steps[k + 0] && node[1] == steps[k + 1] && node[2] == steps[k + 2]);
    assert(node[3] == steps[k + 3] && node[4] == steps[k + 4]);
    reveal_strlit("device_type");
    reveal_strlit("compatible");
    reveal_strlit("reg");
    reveal_strlit("enable-method");
    assert("device_type"@.len() == 11 && "compatible"@.len() == 10);
    assert("reg"@.len() == 3 && "enable-method"@.len() == 13);
    reveal_with_fuel(value_at, 5);
    lemma_big32(id);
}

/// The guest is told of every vCPU, by the number that the firmware knows it by,
/// and how it is switched on.
pub proof fn vcpus_are_described(
    l: Layout,
    initrd_len: usize,
    devices: Seq<VirtioRegion>,
    redist: u64,
    timers: Seq<u32>,
    count: u32,
    mem: bool,
    id: u32,
)
    requires
        id < count,
    ensures
        ({
            let t = tree(l, initrd_len, devices, redist, timers, count, mem);
            exists|k: int|
                {
                    &&& #[trigger] node_at(t, k, "cpu@"@ + hex(id as u64), 2)
                    &&& text_at(t, k, "device_type"@, "cpu"@)
                    &&& cells_at(t, k, "reg"@, seq![id as int])
                    &&& text_at(t, k, "enable-method"@, "psci"@)
                }
        }),
{
    let t = tree(l, initrd_len, devices, redist, timers, count, mem);
    let p = lemma_before(l, initrd_len, devices, redist, timers, count, mem);
    let head = lemma_cpus_head(count);
    let (a, b) = lemma_cpu_stands(count as nat, id as int);
    let front = p[2] + head + a;
    let back = b + seq![Step::End] + psci_node() + gic_node(redist) + timer_node(timers)
        + serial_node() + device_nodes(devices, devices.len()) + seq![Step::End];
    assert(t =~= front + cpu_node(id) + back);
    lemma_stands(front, cpu_node(id), back);
    lemma_depth_concat(p[2], head);
    lemma_depth_concat(p[2] + head, a);
    assert(crate::fdt::depth(p[2]) == 1);
    let k = front.len() as int;
    lemma_cpu_node(t, k, id);
    assert(node_at(t, k, "cpu@"@ + hex(id as u64), 2));
}

proof fn lemma_chosen_node(steps: Seq<Step>, k: int, l: Layout, initrd_len: usize, mem: bool)
    requires
        stands_at(steps, k, chosen_node(l, initrd_len, mem)),
        l.initrd + initrd_len <= u64::MAX,
    ensures
        steps[k] == (Step::Begin { name: "chosen"@ }),
        text_at(steps, k, "bootargs"@, bootargs(mem)),
        text_at(steps, k, "stdout-path"@, "/serial@9000000"@),
        wides_at(steps, k, "linux,initrd-start"@, seq![l.initrd as int]),
        wides_at(steps, k, "linux,initrd-end"@, seq![l.initrd + initrd_len]),
{
    reveal(chosen_node);
    let node = chosen_node(l, initrd_len, mem);
    assert(node[0] == steps[k + 0] && node[1] == steps[k + 1] && node[2] == steps[k + 2]);
    assert(node[3] == steps[k + 3] && node[4] == steps[k + 4]);
    reveal_strlit("bootargs");
    reveal_strlit("stdout-path");
    reveal_strlit("linux,initrd-start");
    reveal_strlit("linux,initrd-end");
    assert("bootargs"@.len() == 8 && "stdout-path"@.len() == 11);
    assert("linux,initrd-start"@.len() == 18 && "linux,initrd-end"@.len() == 16);
    reveal_with_fuel(value_at, 5);
    lemma_big64(l.initrd);
    lemma_big64((l.initrd + initrd_len) as u64);
}

proof fn lemma_memory_node(steps: Seq<Step>, k: int, l: Layout)
    requires
        stands_at(steps, k, memory_node(l)),
    ensures
        steps[k] == (Step::Begin { name: "memory@40000000"@ }),
        text_at(steps, k, "device_type"@, "memory"@),
        wides_at(steps, k, "reg"@, seq![0x4000_0000int, l.size as int]),
{
    reveal(memory_node);
    let node = memory_node(l);
    assert(node[0] == steps[k + 0] && node[1] == steps[k + 1] && node[2] == steps[k + 2]);
    reveal_strlit("device_type");
    reveal_strlit("reg");
    assert("device_type"@.len() == 11 && "reg"@.len() == 3);
    reveal_with_fuel(value_at, 3);
    lemma_wides(seq![crate::boot::RAM, l.size as u64], seq![0x4000_0000int, l.size as int]);
}

/// The guest is told where its memory is and how large, where its initial ramdisk
/// starts and ends, and that its console is the serial port.
pub proof fn memory_is_described(
    l: Layout,
    initrd_len: usize,
    devices: Seq<VirtioRegion>,
    redist: u64,
    timers: Seq<u32>,
    count: u32,
    mem: bool,
)
    requires
        l.initrd + initrd_len <= u64::MAX,
    ensures
        ({
            let t = tree(l, initrd_len, devices, redist, timers, count, mem);
            &&& exists|k: int|
                {
                    &&& #[trigger] node_at(t, k, "memory@40000000"@, 1)
                    &&& text_at(t, k, "device_type"@, "memory"@)
                    &&& wides_at(t, k, "reg"@, seq![0x4000_0000int, l.size as int])
                }
            &&& exists|k: int|
                {
                    &&& #[trigger] node_at(t, k, "chosen"@, 1)
                    &&& text_at(t, k, "bootargs"@, bootargs(mem))
                    &&& text_at(t, k, "stdout-path"@, "/serial@9000000"@)
                    &&& wides_at(t, k, "linux,initrd-start"@, seq![l.initrd as int])
                    &&& wides_at(t, k, "linux,initrd-end"@, seq![l.initrd + initrd_len])
                }
        }),
{
    let t = tree(l, initrd_len, devices, redist, timers, count, mem);
    let p = lemma_before(l, initrd_len, devices, redist, timers, count, mem);
    let rest = cpus_node(count) + psci_node() + gic_node(redist) + timer_node(timers)
        + serial_node() + device_nodes(devices, devices.len()) + seq![Step::End];
    let chosen = chosen_node(l, initrd_len, mem);
    assert(t =~= p[1] + memory_node(l) + rest);
    assert(t =~= p[0] + chosen + (memory_node(l) + rest));
    lemma_stands(p[1], memory_node(l), rest);
    lemma_stands(p[0], chosen, memory_node(l) + rest);
    assert(crate::fdt::depth(p[0]) == 1 && crate::fdt::depth(p[1]) == 1);
    let k = p[1].len() as int;
    lemma_memory_node(t, k, l);
    assert(node_at(t, k, "memory@40000000"@, 1));
    let j = p[0].len() as int;
    lemma_chosen_node(t, j, l, initrd_len, mem);
    assert(node_at(t, j, "chosen"@, 1));
}

proof fn lemma_gic_node(steps: Seq<Step>, k: int, redist: u64)
    requires
        stands_at(steps, k, gic_node(redist)),
    ensures
        steps[k] == (Step::Begin { name: "interrupt-controller@8000000"@ }),
        text_at(steps, k, "compatible"@, "arm,gic-v3"@),
        flag_at(steps, k, "interrupt-controller"@),
        cells_at(steps, k, "#interrupt-cells"@, seq![3int]),
        cells_at(steps, k, "phandle"@, seq![1int]),
        wides_at(
            steps,
            k,
            "reg"@,
            seq![0x800_0000int, 0x1_0000, 0x1000_0000, redist as int],
        ),
{
    reveal(gic_node);
    let node = gic_node(redist);
    assert(node[0] == steps[k + 0] && node[1] == steps[k + 1] && node[2] == steps[k + 2]);
    assert(node[3] == steps[k + 3] && node[4] == steps[k + 4] && node[5] == steps[k + 5]);
    reveal_strlit("compatible");
    reveal_strlit("interrupt-controller");
    reveal_strlit("#interrupt-cells");
    reveal_strlit("phandle");
    reveal_strlit("reg");
    assert("compatible"@.len() == 10 && "interrupt-controller"@.len() == 20);
    assert("#interrupt-cells"@.len() == 16 && "phandle"@.len() == 7 && "reg"@.len() == 3);
    reveal_with_fuel(value_at, 6);
    lemma_big32(3);
    lemma_big32(1);
    lemma_wides(
        seq![crate::boot::GIC_DIST, 0x10000, crate::boot::GIC_REDIST, redist],
        seq![0x800_0000int, 0x1_0000, 0x1000_0000, redist as int],
    );
}

proof fn lemma_timer_node(steps: Seq<Step>, k: int, timers: Seq<u32>)
    requires
        stands_at(steps, k, timer_node(timers)),
        timers.len() == 2,
        timers[0] >= 16,
        timers[1] >= 16,
    ensures
        steps[k] == (Step::Begin { name: "timer"@ }),
        text_at(steps, k, "compatible"@, "arm,armv8-timer"@),
        cells_at(
            steps,
            k,
            "interrupts"@,
            seq![1int, 13, 4, 1, timers[0] - 16, 4, 1, timers[1] - 16, 4, 1, 10, 4],
        ),
{
    reveal(timer_node);
    let node = timer_node(timers);
    assert(node[0] == steps[k + 0] && node[1] == steps[k + 1] && node[2] == steps[k + 2]);
    assert(node[3] == steps[k + 3]);
    reveal_strlit("compatible");
    reveal_strlit("always-on");
    reveal_strlit("interrupts");
    assert("compatible"@.len() == 10 && "always-on"@.len() == 9 && "interrupts"@.len() == 10);
    assert("compatible"@[0] != "interrupts"@[0]);
    reveal_with_fuel(value_at, 4);
    lemma_numbers(
        seq![
            1u32,
            13,
            4,
            1,
            (timers[0] - 16) as u32,
            4,
            1,
            (timers[1] - 16) as u32,
            4,
            1,
            10,
            4,
        ],
        seq![1int, 13, 4, 1, timers[0] - 16, 4, 1, timers[1] - 16, 4, 1, 10, 4],
    );
}

proof fn lemma_serial_node(steps: Seq<Step>, k: int)
    requires
        stands_at(steps, k, serial_node()),
    ensures
        steps[k] == (Step::Begin { name: "serial@9000000"@ }),
        text_at(steps, k, "compatible"@, "ns16550a"@),
        wides_at(steps, k, "reg"@, seq![0x900_0000int, 0x1000]),
        cells_at(steps, k, "clock-frequency"@, seq![1843200int]),
        cells_at(steps, k, "reg-io-width"@, seq![1int]),
        cells_at(steps, k, "interrupts"@, seq![0int, 33 - 32, 4]),
{
    reveal(serial_node);
    let node = serial_node();
    assert(node[0] == steps[k + 0] && node[1] == steps[k + 1] && node[2] == steps[k + 2]);
    assert(node[3] == steps[k + 3] && node[4] == steps[k + 4] && node[5] == steps[k + 5]);
    reveal_strlit("compatible");
    reveal_strlit("reg");
    reveal_strlit("clock-frequency");
    reveal_strlit("reg-io-width");
    reveal_strlit("interrupts");
    assert("compatible"@.len() == 10 && "reg"@.len() == 3 && "clock-frequency"@.len() == 15);
    assert("reg-io-width"@.len() == 12 && "interrupts"@.len() == 10);
    assert("compatible"@[0] != "interrupts"@[0]);
    reveal_with_fuel(value_at, 6);
    lemma_big32(1843200);
    lemma_big32(1);
    lemma_wides(seq![crate::boot::UART, 0x1000], seq![0x900_0000int, 0x1000]);
    lemma_numbers(
        seq![0u32, (crate::boot::UART_IRQ - 32) as u32, 4],
        seq![0int, 33 - 32, 4],
    );
}

proof fn lemma_psci_node(steps: Seq<Step>, k: int)
    requires
        stands_at(steps, k, psci_node()),
    ensures
        steps[k] == (Step::Begin { name: "psci"@ }),
        text_at(steps, k, "compatible"@, "arm,psci-0.2"@),
        text_at(steps, k, "method"@, "hvc"@),
{
    reveal(psci_node);
    let node = psci_node();
    assert(node[0] == steps[k + 0] && node[1] == steps[k + 1] && node[2] == steps[k + 2]);
    reveal_strlit("compatible");
    reveal_strlit("method");
    assert("compatible"@.len() == 10 && "method"@.len() == 6);
    reveal_with_fuel(value_at, 3);
}

proof fn lemma_root(steps: Seq<Step>)
    requires
        stands_at(steps, 0, root_steps()),
    ensures
        cells_at(steps, 0, "#address-cells"@, seq![2int]),
        cells_at(steps, 0, "#size-cells"@, seq![2int]),
        cells_at(steps, 0, "interrupt-parent"@, seq![1int]),
{
    reveal(root_steps);
    let node = root_steps();
    assert(node[0] == steps[0int + 0] && node[1] == steps[0int + 1] && node[2] == steps[0int + 2]);
    assert(node[3] == steps[0int + 3] && node[4] == steps[0int + 4]);
    reveal_strlit("compatible");
    reveal_strlit("#address-cells");
    reveal_strlit("#size-cells");
    reveal_strlit("interrupt-parent");
    assert("compatible"@.len() == 10 && "#address-cells"@.len() == 14);
    assert("#size-cells"@.len() == 11 && "interrupt-parent"@.len() == 16);
    reveal_with_fuel(value_at, 5);
    lemma_big32(2);
    lemma_big32(1);
}

/// The guest is told of its interrupt controller, of its timers, whose private
/// interrupts count from 16, of its serial port at interrupt 33, and how it calls
/// the firmware.
pub proof fn controllers_are_described(
    l: Layout,
    initrd_len: usize,
    devices: Seq<VirtioRegion>,
    redist: u64,
    timers: Seq<u32>,
    count: u32,
    mem: bool,
)
    requires
        timers.len() == 2,
        timers[0] >= 16,
        timers[1] >= 16,
    ensures
        ({
            let t = tree(l, initrd_len, devices, redist, timers, count, mem);
            &&& cells_at(t, 0, "#address-cells"@, seq![2int])
            &&& cells_at(t, 0, "#size-cells"@, seq![2int])
            &&& cells_at(t, 0, "interrupt-parent"@, seq![1int])
            &&& exists|k: int|
                {
                    &&& #[trigger] node_at(t, k, "interrupt-controller@8000000"@, 1)
                    &&& text_at(t, k, "compatible"@, "arm,gic-v3"@)
                    &&& flag_at(t, k, "interrupt-controller"@)
                    &&& cells_at(t, k, "#interrupt-cells"@, seq![3int])
                    &&& cells_at(t, k, "phandle"@, seq![1int])
                    &&& wides_at(
                        t,
                        k,
                        "reg"@,
                        seq![0x800_0000int, 0x1_0000, 0x1000_0000, redist as int],
                    )
                }
            &&& exists|k: int|
                {
                    &&& #[trigger] node_at(t, k, "timer"@, 1)
                    &&& text_at(t, k, "compatible"@, "arm,armv8-timer"@)
                    &&& cells_at(
                        t,
                        k,
                        "interrupts"@,
                        seq![1int, 13, 4, 1, timers[0] - 16, 4, 1, timers[1] - 16, 4, 1, 10, 4],
                    )
                }
            &&& exists|k: int|
                {
                    &&& #[trigger] node_at(t, k, "serial@9000000"@, 1)
                    &&& text_at(t, k, "compatible"@, "ns16550a"@)
                    &&& wides_at(t, k, "reg"@, seq![0x900_0000int, 0x1000])
                    &&& cells_at(t, k, "reg-io-width"@, seq![1int])
                    &&& cells_at(t, k, "interrupts"@, seq![0int, 33 - 32, 4])
                }
            &&& exists|k: int|
                {
                    &&& #[trigger] node_at(t, k, "psci"@, 1)
                    &&& text_at(t, k, "compatible"@, "arm,psci-0.2"@)
                    &&& text_at(t, k, "method"@, "hvc"@)
                }
        }),
{
    let t = tree(l, initrd_len, devices, redist, timers, count, mem);
    let p = lemma_before(l, initrd_len, devices, redist, timers, count, mem);
    let after = device_nodes(devices, devices.len()) + seq![Step::End];
    let r6 = serial_node() + after;
    let r5 = timer_node(timers) + r6;
    let r4 = gic_node(redist) + r5;
    let none = Seq::<Step>::empty();
    assert(t =~= p[6] + serial_node() + after);
    assert(t =~= p[5] + timer_node(timers) + r6);
    assert(t =~= p[4] + gic_node(redist) + r5);
    assert(t =~= p[3] + psci_node() + r4);
    let rest = t.skip(root_steps().len() as int);
    assert(t =~= none + root_steps() + rest) by {
        assert(t.take(root_steps().len() as int) =~= root_steps()) by {
            let tail = chosen_node(l, initrd_len, mem) + memory_node(l) + cpus_node(count)
                + psci_node() + r4;
            assert(t =~= root_steps() + tail);
        }
    }
    lemma_stands(p[6], serial_node(), after);
    lemma_stands(p[5], timer_node(timers), r6);
    lemma_stands(p[4], gic_node(redist), r5);
    lemma_stands(p[3], psci_node(), r4);
    lemma_stands(none, root_steps(), rest);
    assert(crate::fdt::depth(p[3]) == 1 && crate::fdt::depth(p[4]) == 1);
    assert(crate::fdt::depth(p[5]) == 1 && crate::fdt::depth(p[6]) == 1);
    lemma_root(t);
    let a = p[4].len() as int;
    lemma_gic_node(t, a, redist);
    assert(node_at(t, a, "interrupt-controller@8000000"@, 1));
    let b = p[5].len() as int;
    lemma_timer_node(t, b, timers);
    assert(node_at(t, b, "timer"@, 1));
    let c = p[6].len() as int;
    lemma_serial_node(t, c);
    assert(node_at(t, c, "serial@9000000"@, 1));
    let d = p[3].len() as int;
    lemma_psci_node(t, d);
    assert(node_at(t, d, "psci"@, 1));
}

/// The number in `n` bytes from `p` on, the lowest byte first.
pub open spec fn small(v: Seq<u8>, p: int, n: nat) -> int
    decreases n,
{
    if n == 0 {
        0
    } else {
        v[p] + 0x100 * small(v, p + 1, (n - 1) as nat)
    }
}

proof fn lemma_small64(v: Seq<u8>, p: int)
    requires
        0 <= p,
        p + 8 <= v.len(),
    ensures
        crate::bytes::le64(v, p) == small(v, p, 8),
{
    reveal_with_fuel(small, 9);
}

/// The parts of a machine's memory as `l` places them: the kernel where its header
/// asks for it, the description in the last 2 MiB, and the ramdisk right before
/// that, as high as an address that is a multiple of 64 KiB lets it, and above all
/// of the kernel.
pub open spec fn placed(mib: u64, kernel: Seq<u8>, initrd_len: usize, l: Layout) -> bool {
    &&& l.size == mib * 0x10_0000
    &&& l.entry == 0x4000_0000 + small(kernel, 8, 8)
    &&& l.dtb + 0x20_0000 == 0x4000_0000 + l.size
    &&& l.initrd % 0x1_0000 == 0
    &&& l.initrd + initrd_len <= l.dtb < l.initrd + initrd_len + 0x1_0000
    &&& l.entry + kernel.len() <= l.initrd
    &&& l.entry + small(kernel, 16, 8) <= l.initrd
}

/// The file is a little-endian image for the architecture that tells its size.
pub open spec fn bootable(kernel: Seq<u8>) -> bool {
    &&& kernel.len() >= 64
    &&& kernel[56] == 0x41
    &&& kernel[57] == 0x52
    &&& kernel[58] == 0x4d
    &&& kernel[59] == 0x64
    &&& small(kernel, 16, 8) != 0
    &&& kernel[24] % 2 == 0
    &&& small(kernel, 8, 8) % 4096 == 0
}

/// A kernel and a ramdisk that fit in a memory of at least 128 MiB are accepted,
/// with the one layout that places them as they ask; nothing else is.
pub proof fn guests_that_fit_are_placed(mib: u64, kernel: Seq<u8>, initrd_len: usize, l: Layout)
    ensures
        layout_of(mib, kernel, initrd_len) == Ok::<Layout, BootError>(l) <==> mib >= 128
            && bootable(kernel) && l.size <= isize::MAX && 0x4000_0000 <= l.initrd && placed(
            mib,
            kernel,
            initrd_len,
            l,
        ),
{
    if kernel.len() >= 64 {
        lemma_small64(kernel, 8);
        lemma_small64(kernel, 16);
        lemma_small64(kernel, 24);
        reveal_with_fuel(small, 9);
        assert(crate::bytes::le64(kernel, 24) % 2 == kernel[24] % 2);
        let dtb = 0x4000_0000 + mib * 0x10_0000 - 0x20_0000;
        let top = dtb - initrd_len;
        assert(crate::memory::MIB == 0x10_0000);
        if l.initrd % 0x1_0000 == 0 && l.initrd <= top < l.initrd + 0x1_0000 {
            assert(l.initrd == top - top % 0x1_0000);
        }
    }
}

/// A refusal names something that is wrong with the machine that was asked for.
pub proof fn guests_are_refused_for_what_is_wrong(mib: u64, kernel: Seq<u8>, initrd_len: usize)
    ensures
        ({
            let r = layout_of(mib, kernel, initrd_len);
            let offset = small(kernel, 8, 8);
            let image = small(kernel, 16, 8);
            &&& mib < 128 <==> r == Err::<Layout, BootError>(
                BootError::MemoryMustBeAtLeast128Mib { mib },
            )
            &&& mib >= 128 && !(kernel.len() >= 64 && kernel[56] == 0x41 && kernel[57] == 0x52
                && kernel[58] == 0x4d && kernel[59] == 0x64) <==> r == Err::<Layout, BootError>(
                BootError::InvalidArm64Image,
            )
            &&& r matches Err(BootError::LegacyImageWithoutImageSizeIsUnsupported) ==> image == 0
            &&& r matches Err(BootError::BigEndianKernelUnsupported) ==> kernel[24] % 2 == 1
            &&& r matches Err(BootError::UnalignedKernelTextOffset { offset: o }) ==> o == offset
                && offset % 4096 != 0
            &&& r matches Err(BootError::KernelOffsetOverflow { offset: o }) ==> o == offset
                && 0x4000_0000 + offset > u64::MAX
            &&& r matches Err(BootError::MemoryCapacityConversionOverflow { mib: m }) ==> m == mib
                && mib * 0x10_0000 > u64::MAX
            &&& r matches Err(BootError::RamExceedsHostAllocationSize { size }) ==> size == mib
                * 0x10_0000 && size > isize::MAX
            &&& r matches Err(BootError::InitrdTooLarge { length }) ==> length == initrd_len
                && length + 0x20_0000 > 0x4000_0000 + mib * 0x10_0000
            &&& r matches Err(BootError::ImageSizeOverflow) ==> 0x4000_0000 + offset + image
                > u64::MAX || 0x4000_0000 + offset + kernel.len() > u64::MAX
            &&& r matches Err(BootError::KernelInitramfsFdtOverlapOrExceedRam)
                ==> !(exists|l: Layout| 0x4000_0000 <= l.initrd && #[trigger] placed(
                mib,
                kernel,
                initrd_len,
                l,
            ))
        }),
{
    let r = layout_of(mib, kernel, initrd_len);
    assert(crate::memory::MIB == 0x10_0000);
    if kernel.len() >= 64 {
        lemma_small64(kernel, 8);
        lemma_small64(kernel, 16);
        lemma_small64(kernel, 24);
        assert(crate::bytes::le64(kernel, 24) % 2 == kernel[24] % 2);
        assert forall|l: Layout|
            0x4000_0000 <= l.initrd && #[trigger] placed(mib, kernel, initrd_len, l) implies !(
        r matches Err(BootError::KernelInitramfsFdtOverlapOrExceedRam)) by {
            let top = l.dtb - initrd_len;
            assert(l.initrd == top - top % 0x1_0000);
        }
    }
}

/// A guest is ready to start once its ramdisk and its description stand where the
/// layout places them. That is so whenever its kernel was put where the layout
/// wants it, the description fits in its space, and there is memory at both
/// places; else the start is refused.
pub proof fn guests_are_loaded_where_they_are_placed(
    l: Layout,
    loaded: Result<u64, Failure>,
    initrd: Seq<u8>,
    dtb: Seq<u8>,
    m0: Memory,
    m1: Memory,
    r: Result<(), BootError>,
)
    requires
        load_rel(l, loaded, initrd, dtb, m0, m1, r),
    ensures
        r is Ok <==> (loaded matches Ok(entry) && entry == l.entry) && dtb.len() <= 0x20_0000
            && covers(m0.regions, l.initrd as int, initrd.len() as int) && covers(
            m0.regions,
            l.dtb as int,
            dtb.len() as int,
        ),
        r is Ok ==> m1.accesses == m0.accesses.push(Access::Write { addr: l.initrd, data: initrd }).push(
            Access::Write { addr: l.dtb, data: dtb },
        ),
        dtb.len() > 0x20_0000 || loaded is Err || loaded->Ok_0 != l.entry ==> m1 == m0,
        r matches Err(BootError::Loader(e)) ==> loaded == Err::<u64, Failure>(e),
        r matches Err(BootError::LoaderLayoutDisagreement) ==> loaded is Ok && loaded->Ok_0
            != l.entry,
{
}

/// The numbers that the devices of the bus have: their registers follow one
/// another from 0x0a000000 on, a page of 4 KiB for each, and their interrupts from
/// 34 on.
pub proof fn devices_are_numbered_in_order(i: int)
    requires
        0 <= i < 986,
    ensures
        region_of(i).address == 0x0a00_0000 + 0x1000 * i,
        region_of(i).irq == 34 + i,
{
}

/// A machine that is granted has its memory at 0x40000000, as much as was asked
/// for, and behind it, aligned as its device asks, the memory that can be plugged;
/// all of it within the addresses that the host can map. Each device has a place
/// and an interrupt of its own.
pub proof fn machines_are_laid_out(
    config: VmConfig,
    wanted: Option<MemoryRequirement>,
    count: nat,
    kernel: Seq<u8>,
    initrd_len: usize,
    max: Result<u32, PlatformError>,
    bits: Result<u32, PlatformError>,
    r: Result<MachineLayout, PlatformError>,
)
    requires
        platform_layout(config, wanted, count, kernel, initrd_len, max, bits, r),
    ensures
        r matches Ok(m) ==> {
            let end = 0x4000_0000 + config.memory_mib * 0x10_0000;
            let limit = pow2((bits->Ok_0) as nat);
            &&& layout_of(config.memory_mib, kernel, initrd_len) is Ok
            &&& max is Ok && 1 <= config.vcpu_count <= max->Ok_0
            &&& bits is Ok && 1 <= bits->Ok_0 <= 64
            &&& m.ram@.len() == 1
            &&& m.ram@[0].address == 0x4000_0000
            &&& m.ram@[0].size == config.memory_mib * 0x10_0000
            &&& end <= limit
            &&& m.hotplug is Some <==> wanted is Some
            &&& m.hotplug matches Some(h) ==> {
                &&& h.size == wanted->0.capacity
                &&& h.address as int % wanted->0.alignment as int == 0
                &&& end <= h.address < end + wanted->0.alignment
                &&& h.address + h.size <= limit
            }
            &&& m.uart.space is Mmio
            &&& m.uart.address == 0x0900_0000
            &&& m.uart.size == 8
            &&& m.uart.irq == 33
            &&& count <= 986
            &&& m.virtio@.len() == count
            &&& forall|i: int|
                0 <= i < count ==> {
                    &&& (#[trigger] m.virtio@[i]).space is Mmio
                    &&& m.virtio@[i].address == 0x0a00_0000 + 0x1000 * i
                    &&& m.virtio@[i].size == 0x1000
                    &&& m.virtio@[i].irq == 34 + i
                }
        },
{
    if let Ok(m) = r {
        let ram = m.ram@[0];
        let end = ram.address + ram.size;
        assert(crate::memory::MIB == 0x10_0000);
        lemma_limit(bits->Ok_0, end);
        if let Some(h) = m.hotplug {
            let unit = wanted->0.alignment as int;
            lemma_limit(bits->Ok_0, h.address + h.size);
            assert(unit > 0);
            assert(0 <= end % unit < unit) by (nonlinear_arith)
                requires
                    unit > 0,
            ;
            if end % unit != 0 {
                let up = end - end % unit + unit;
                vstd::arithmetic::div_mod::lemma_fundamental_div_mod(end, unit);
                assert(up == unit * (end / unit + 1)) by (nonlinear_arith)
                    requires
                        up == end - end % unit + unit,
                        end == unit * (end / unit) + end % unit,
                ;
                vstd::arithmetic::div_mod::lemma_mod_multiples_basic(end / unit + 1, unit);
                assert(up % unit == 0) by {
                    vstd::arithmetic::mul::lemma_mul_is_commutative(unit, end / unit + 1);
                }
            }
        }
    }
}

proof fn lemma_limit(bits: u32, end: int)
    ensures
        1 <= bits <= 64 && end <= u64::MAX && (bits < 64 ==> end <= pow2(bits as nat)) ==> end
            <= pow2(bits as nat),
{
    vstd::arithmetic::power2::lemma2_to64();
}

/// A machine is refused only for something that cannot be: an image that does not
/// fit, vCPUs that the host does not have, memory that it cannot map, or more
/// devices than there are interrupts.
pub proof fn machines_that_can_be_are_granted(
    config: VmConfig,
    wanted: Option<MemoryRequirement>,
    count: nat,
    kernel: Seq<u8>,
    initrd_len: usize,
    max: u32,
    bits: u32,
    at: u64,
    r: Result<MachineLayout, PlatformError>,
)
    requires
        platform_layout(config, wanted, count, kernel, initrd_len, Ok(max), Ok(bits), r),
        layout_of(config.memory_mib, kernel, initrd_len) is Ok,
        1 <= config.vcpu_count <= max,
        1 <= bits <= 64,
        count <= 986,
        0x4000_0000 + config.memory_mib * 0x10_0000 < u64::MAX,
        0x4000_0000 + config.memory_mib * 0x10_0000 <= pow2(bits as nat),
        wanted matches Some(n) ==> {
            &&& n.alignment > 0
            &&& at as int % n.alignment as int == 0
            &&& 0x4000_0000 + config.memory_mib * 0x10_0000 <= at
            &&& at + n.capacity <= u64::MAX
            &&& at + n.capacity <= pow2(bits as nat)
        },
    ensures
        r is Ok,
{
    assert(crate::memory::MIB == 0x10_0000);
    if let Some(n) = wanted {
        let unit = n.alignment as int;
        let end = 0x4000_0000 + config.memory_mib * 0x10_0000;
        let up = crate::arm64::hvf::round_up(end, unit);
        assert(up <= at) by {
            if end % unit != 0 {
                vstd::arithmetic::div_mod::lemma_fundamental_div_mod(end, unit);
                vstd::arithmetic::div_mod::lemma_fundamental_div_mod(at as int, unit);
                let q = end / unit;
                let p = at as int / unit;
                let e = end % unit;
                assert(0 <= e < unit) by (nonlinear_arith)
                    requires
                        unit > 0,
                        e == end % unit,
                ;
                assert(p > q) by (nonlinear_arith)
                    requires
                        unit * q + e <= unit * p,
                        e > 0,
                        unit > 0,
                ;
                assert(unit * p >= unit * q + unit) by (nonlinear_arith)
                    requires
                        p > q,
                        unit > 0,
                ;
            }
        }
    }
}

/// What a text in base sixteen says.
pub open spec fn said(text: Seq<char>) -> int
    decreases text.len(),
{
    if text.len() == 0 {
        0
    } else {
        let c = text.last();
        16 * said(text.drop_last()) + if '0' <= c <= '9' {
            c as int - '0' as int
        } else if 'a' <= c <= 'f' {
            c as int - 'a' as int + 10
        } else {
            -1
        }
    }
}

/// The number in a node's name is the address of what the node describes.
pub proof fn names_say_their_address(n: u64)
    ensures
        said(hex(n)) == n,
        hex(n)[0] == '0' ==> n == 0,
    decreases n,
{
    reveal_with_fuel(said, 2);
    if n >= 16 {
        names_say_their_address(n / 16);
        crate::fdt::lemma_hex(n / 16);
        assert(hex(n).drop_last() =~= hex(n / 16));
        assert(hex(n)[0] == hex(n / 16)[0]);
    }
}

/// The command line tells the kernel where its console is and what to run first;
/// with memory that can be plugged it goes on with how to take such memory.
pub proof fn the_command_line_goes_on_with_memory(mem: bool)
    ensures
        ({
            let first =
                "console=ttyS0,115200 earlycon=uart8250,mmio,0x09000000 rdinit=/init panic=-1"@;
            &&& bootargs(mem).take(first.len() as int) == first
            &&& bootargs(mem).len() > first.len() <==> mem
            &&& mem ==> bootargs(mem).skip(first.len() as int)
                == " memory_hotplug.online_policy=auto-movable memory_hotplug.auto_movable_ratio=301 memhp_default_state=online"@
        }),
{
    let first = "console=ttyS0,115200 earlycon=uart8250,mmio,0x09000000 rdinit=/init panic=-1"@;
    let more =
        " memory_hotplug.online_policy=auto-movable memory_hotplug.auto_movable_ratio=301 memhp_default_state=online"@;
    reveal_strlit(
        " memory_hotplug.online_policy=auto-movable memory_hotplug.auto_movable_ratio=301 memhp_default_state=online",
    );
    assert(more.len() > 0);
    assert(bootargs(mem).take(first.len() as int) =~= first);
    assert(mem ==> bootargs(mem).skip(first.len() as int) =~= more);
}

} // verus!

//! The device tree that tells a guest what its machine is made of.
use crate::boot::{Layout, VirtioRegion, GIC_DIST, GIC_REDIST, RAM, UART, UART_IRQ, VIRTIO_STRIDE};
use crate::bytes::be32;
use crate::error::BootError;
use crate::fdt::{
    begin, depth, end, fdt_depth, fdt_finished, fdt_written, flag, flag_prop, hex,
    lemma_cells32_len, lemma_cells64_len, lemma_hex, lemma_unit_name, lemma_utf8_len,
    lemma_weight_concat, no_zero, node_name, number, number_prop, numbers, numbers_prop,
    plain_name, prop_name, text, text_prop, total_weight, unit_name, weight, wide, wide_prop,
    wides, wides_prop, writer_finish, writer_new, Step, STEP_LIMIT,
};
use vm_fdt::{FdtWriter, FdtWriterNode};
use vstd::prelude::*;

verus! {

/// The property names of the tree are names of properties.
proof fn lemma_prop_names()
    ensures
        prop_name("compatible"@),
        prop_name("#address-cells"@),
        prop_name("#size-cells"@),
        prop_name("interrupt-parent"@),
        prop_name("bootargs"@),
        prop_name("stdout-path"@),
        prop_name("linux,initrd-start"@),
        prop_name("linux,initrd-end"@),
        prop_name("device_type"@),
        prop_name("reg"@),
        prop_name("enable-method"@),
        prop_name("method"@),
        prop_name("interrupt-controller"@),
        prop_name("#interrupt-cells"@),
        prop_name("phandle"@),
        prop_name("always-on"@),
        prop_name("interrupts"@),
        prop_name("clock-frequency"@),
        prop_name("reg-io-width"@),
        prop_name("dma-coherent"@),
{
    reveal_strlit("compatible");
    reveal_strlit("#address-cells");
    reveal_strlit("#size-cells");
    reveal_strlit("interrupt-parent");
    reveal_strlit("bootargs");
    reveal_strlit("stdout-path");
    reveal_strlit("linux,initrd-start");
    reveal_strlit("linux,initrd-end");
    reveal_strlit("device_type");
    reveal_strlit("reg");
    reveal_strlit("enable-method");
    reveal_strlit("method");
    reveal_strlit("interrupt-controller");
    reveal_strlit("#interrupt-cells");
    reveal_strlit("phandle");
    reveal_strlit("always-on");
    reveal_strlit("interrupts");
    reveal_strlit("clock-frequency");
    reveal_strlit("reg-io-width");
    reveal_strlit("dma-coherent");
}

/// The short texts of the tree are plain.
proof fn lemma_texts()
    ensures
        no_zero("w-vmm,arm64"@) && "w-vmm,arm64"@.len() <= 16,
        no_zero("/serial@9000000"@) && "/serial@9000000"@.len() <= 16,
        no_zero("memory"@) && "memory"@.len() <= 16,
        no_zero("cpu"@) && "cpu"@.len() <= 16,
        no_zero("arm,arm-v8"@) && "arm,arm-v8"@.len() <= 16,
        no_zero("psci"@) && "psci"@.len() <= 16,
        no_zero("arm,psci-0.2"@) && "arm,psci-0.2"@.len() <= 16,
        no_zero("hvc"@) && "hvc"@.len() <= 16,
        no_zero("arm,gic-v3"@) && "arm,gic-v3"@.len() <= 16,
        no_zero("arm,armv8-timer"@) && "arm,armv8-timer"@.len() <= 16,
        no_zero("ns16550a"@) && "ns16550a"@.len() <= 16,
        no_zero("virtio,mmio"@) && "virtio,mmio"@.len() <= 16,
{
    reveal_strlit("w-vmm,arm64");
    reveal_strlit("/serial@9000000");
    reveal_strlit("memory");
    reveal_strlit("cpu");
    reveal_strlit("arm,arm-v8");
    reveal_strlit("psci");
    reveal_strlit("arm,psci-0.2");
    reveal_strlit("hvc");
    reveal_strlit("arm,gic-v3");
    reveal_strlit("arm,armv8-timer");
    reveal_strlit("ns16550a");
    reveal_strlit("virtio,mmio");
}

/// The fixed node names of the tree are names of nodes.
proof fn lemma_node_names()
    ensures
        node_name(""@),
        node_name("chosen"@),
        node_name("memory@40000000"@),
        node_name("cpus"@),
        node_name("psci"@),
        node_name("interrupt-controller@8000000"@),
        node_name("timer"@),
        node_name("serial@9000000"@),
        forall|n: u64| node_name("cpu@"@ + #[trigger] hex(n)),
        forall|n: u64| node_name("virtio_mmio@"@ + #[trigger] hex(n)),
{
    reveal_strlit("");
    reveal_strlit("chosen");
    reveal_strlit("memory@40000000");
    reveal_strlit("cpus");
    reveal_strlit("psci");
    reveal_strlit("interrupt-controller@8000000");
    reveal_strlit("timer");
    reveal_strlit("serial@9000000");
    reveal_strlit("cpu@");
    reveal_strlit("virtio_mmio@");
    assert("memory@40000000"@[6] == '@');
    assert(plain_name("memory@40000000"@.take(6)));
    assert("interrupt-controller@8000000"@[20] == '@');
    assert(plain_name("interrupt-controller@8000000"@.take(20)));
    assert("serial@9000000"@[6] == '@');
    assert(plain_name("serial@9000000"@.take(6)));
    let cpu = "cpu@"@.take(3);
    assert(plain_name(cpu));
    assert("cpu@"@ =~= cpu.push('@'));
    let mmio = "virtio_mmio@"@.take(11);
    assert(plain_name(mmio));
    assert("virtio_mmio@"@ =~= mmio.push('@'));
    assert forall|n: u64| node_name("cpu@"@ + #[trigger] hex(n)) by {
        lemma_unit_name(cpu, "cpu@"@, n);
    }
    assert forall|n: u64| node_name("virtio_mmio@"@ + #[trigger] hex(n)) by {
        lemma_unit_name(mmio, "virtio_mmio@"@, n);
    }
}

/// The command line of the kernel.
pub open spec fn bootargs(virtio_mem: bool) -> Seq<char> {
    let base =
        "console=ttyS0,115200 earlycon=uart8250,mmio,0x09000000 rdinit=/init panic=-1"@;
    let hotplug =
        " memory_hotplug.online_policy=auto-movable memory_hotplug.auto_movable_ratio=301 memhp_default_state=online"@;
    if virtio_mem {
        base + hotplug
    } else {
        base
    }
}

/// The command line of the kernel.
fn bootargs_text(virtio_mem: bool) -> (r: String)
    ensures
        r@ == bootargs(virtio_mem),
        no_zero(r@),
        r@.len() <= 0x100,
{
    let base: &str = "console=ttyS0,115200 earlycon=uart8250,mmio,0x09000000 rdinit=/init panic=-1";
    let hotplug: &str =
        " memory_hotplug.online_policy=auto-movable memory_hotplug.auto_movable_ratio=301 memhp_default_state=online";
    proof {
        reveal_strlit(
            "console=ttyS0,115200 earlycon=uart8250,mmio,0x09000000 rdinit=/init panic=-1",
        );
        reveal_strlit(
            " memory_hotplug.online_policy=auto-movable memory_hotplug.auto_movable_ratio=301 memhp_default_state=online",
        );
        assert(no_zero(base@));
        assert(no_zero(hotplug@));
    }
    let mut s: String = base.to_owned();
    if virtio_mem {
        s.append(hotplug);
    }
    s
}

/// The command line, the console and the initial ramdisk.
#[verifier::opaque]
pub open spec fn chosen_node(l: Layout, initrd_len: usize, virtio_mem: bool) -> Seq<Step> {
    seq![
        (Step::Begin { name: "chosen"@ }),
        text_prop("bootargs"@, bootargs(virtio_mem)),
        text_prop("stdout-path"@, "/serial@9000000"@),
        wide_prop("linux,initrd-start"@, l.initrd),
        wide_prop("linux,initrd-end"@, (l.initrd + initrd_len) as u64),
        Step::End,
    ]
}

/// Base memory. Dynamic memory is found through its device.
#[verifier::opaque]
pub open spec fn memory_node(l: Layout) -> Seq<Step> {
    seq![
        (Step::Begin { name: "memory@40000000"@ }),
        text_prop("device_type"@, "memory"@),
        wides_prop("reg"@, seq![RAM, l.size as u64]),
        Step::End,
    ]
}

/// How vCPUs are started and stopped.
#[verifier::opaque]
pub open spec fn psci_node() -> Seq<Step> {
    seq![
        (Step::Begin { name: "psci"@ }),
        text_prop("compatible"@, "arm,psci-0.2"@),
        text_prop("method"@, "hvc"@),
        Step::End,
    ]
}

/// The interrupt controller.
#[verifier::opaque]
pub open spec fn gic_node(redist_size: u64) -> Seq<Step> {
    seq![
        (Step::Begin { name: "interrupt-controller@8000000"@ }),
        text_prop("compatible"@, "arm,gic-v3"@),
        flag_prop("interrupt-controller"@),
        number_prop("#interrupt-cells"@, 3),
        number_prop("phandle"@, 1),
        wides_prop("reg"@, seq![GIC_DIST, 0x10000, GIC_REDIST, redist_size]),
        Step::End,
    ]
}

/// The timers, by their interrupts.
#[verifier::opaque]
pub open spec fn timer_node(timers: Seq<u32>) -> Seq<Step> {
    seq![
        (Step::Begin { name: "timer"@ }),
        text_prop("compatible"@, "arm,armv8-timer"@),
        flag_prop("always-on"@),
        numbers_prop("interrupts"@, seq![1u32, 13, 4, 1, (timers[0] - 16) as u32, 4, 1, (timers[1] - 16) as u32, 4, 1, 10, 4]),
        Step::End,
    ]
}

/// The UART.
#[verifier::opaque]
pub open spec fn serial_node() -> Seq<Step> {
    seq![
        (Step::Begin { name: "serial@9000000"@ }),
        text_prop("compatible"@, "ns16550a"@),
        wides_prop("reg"@, seq![UART, 0x1000]),
        number_prop("clock-frequency"@, 1843200),
        number_prop("reg-io-width"@, 1),
        numbers_prop("interrupts"@, seq![0u32, (UART_IRQ - 32) as u32, 4]),
        Step::End,
    ]
}

/// A virtio device.
#[verifier::opaque]
pub open spec fn device_node(d: VirtioRegion) -> Seq<Step> {
    seq![
        (Step::Begin { name: "virtio_mmio@"@ + hex(d.address) }),
        text_prop("compatible"@, "virtio,mmio"@),
        wides_prop("reg"@, seq![d.address, VIRTIO_STRIDE]),
        numbers_prop("interrupts"@, seq![0u32, (d.irq - 32) as u32, 4]),
        flag_prop("dma-coherent"@),
        Step::End,
    ]
}

/// A vCPU.
#[verifier::opaque]
pub open spec fn cpu_node(id: u32) -> Seq<Step> {
    seq![
        (Step::Begin { name: "cpu@"@ + hex(id as u64) }),
        text_prop("device_type"@, "cpu"@),
        text_prop("compatible"@, "arm,arm-v8"@),
        number_prop("reg"@, id),
        text_prop("enable-method"@, "psci"@),
        Step::End,
    ]
}

/// The first `n` vCPUs.
pub open spec fn cpu_nodes(n: nat) -> Seq<Step>
    decreases n,
{
    if n == 0 {
        Seq::empty()
    } else {
        cpu_nodes((n - 1) as nat) + cpu_node((n - 1) as u32)
    }
}

/// All vCPUs.
#[verifier::opaque]
pub open spec fn cpus_node(vcpu_count: u32) -> Seq<Step> {
    seq![
        (Step::Begin { name: "cpus"@ }),
        number_prop("#address-cells"@, 1),
        number_prop("#size-cells"@, 0),
    ] + cpu_nodes(vcpu_count as nat) + seq![Step::End]
}

/// The first `n` of `devices`.
pub open spec fn device_nodes(devices: Seq<VirtioRegion>, n: nat) -> Seq<Step>
    decreases n,
{
    if n == 0 {
        Seq::empty()
    } else {
        device_nodes(devices, (n - 1) as nat) + device_node(devices[n - 1])
    }
}

/// What the root of the tree itself says.
#[verifier::opaque]
pub open spec fn root_steps() -> Seq<Step> {
    seq![
        (Step::Begin { name: ""@ }),
        text_prop("compatible"@, "w-vmm,arm64"@),
        number_prop("#address-cells"@, 2),
        number_prop("#size-cells"@, 2),
        number_prop("interrupt-parent"@, 1),
    ]
}

/// The whole tree.
pub open spec fn tree(
    l: Layout,
    initrd_len: usize,
    devices: Seq<VirtioRegion>,
    redist_size: u64,
    timers: Seq<u32>,
    vcpu_count: u32,
    virtio_mem: bool,
) -> Seq<Step> {
    root_steps() + chosen_node(l, initrd_len, virtio_mem) + memory_node(l) + cpus_node(vcpu_count)
        + psci_node() + gic_node(redist_size) + timer_node(timers) + serial_node() + device_nodes(
        devices,
        devices.len(),
    ) + seq![Step::End]
}

/// `d` nodes are open.
pub open spec fn at_depth(w: FdtWriter, d: int) -> bool {
    depth(fdt_written(w)) == d
}

fn write_chosen(w: &mut FdtWriter, l: &Layout, initrd_len: usize, virtio_mem: bool) -> (r: Result<(), BootError>)
    requires
        at_depth(*old(w), 1),
        l.initrd + initrd_len <= u64::MAX,
    ensures
        fdt_written(*old(w)).len() + 6 <= STEP_LIMIT ==> r is Ok,
        r is Ok ==> fdt_written(*final(w)) == fdt_written(*old(w)) + chosen_node(*l, initrd_len, virtio_mem)
            && at_depth(*final(w), 1),
        r matches Err(e) ==> e is Fdt,
{
    let ghost before = fdt_written(*w);
    proof {
        reveal(chosen_node);
        lemma_prop_names();
        lemma_texts();
        lemma_node_names();
    }
    let args: String = bootargs_text(virtio_mem);
    let node: FdtWriterNode = begin(w, "chosen")?;
    text(w, "bootargs", args.as_str())?;
    text(w, "stdout-path", "/serial@9000000")?;
    wide(w, "linux,initrd-start", l.initrd)?;
    wide(w, "linux,initrd-end", l.initrd + initrd_len as u64)?;
    end(w, node)?;
    assert(fdt_written(*w) =~= before + chosen_node(*l, initrd_len, virtio_mem));
    Ok(())
}

fn write_memory(w: &mut FdtWriter, l: &Layout) -> (r: Result<(), BootError>)
    requires
        at_depth(*old(w), 1),
    ensures
        fdt_written(*old(w)).len() + 4 <= STEP_LIMIT ==> r is Ok,
        r is Ok ==> fdt_written(*final(w)) == fdt_written(*old(w)) + memory_node(*l)
            && at_depth(*final(w), 1),
        r matches Err(e) ==> e is Fdt,
{
    let ghost before = fdt_written(*w);
    proof {
        reveal(memory_node);
        lemma_prop_names();
        lemma_texts();
        lemma_node_names();
    }
    let node: FdtWriterNode = begin(w, "memory@40000000")?;
    text(w, "device_type", "memory")?;
    wides(w, "reg", vec![RAM, l.size as u64].as_slice())?;
    end(w, node)?;
    assert(fdt_written(*w) =~= before + memory_node(*l));
    Ok(())
}

fn write_psci(w: &mut FdtWriter) -> (r: Result<(), BootError>)
    requires
        at_depth(*old(w), 1),
    ensures
        fdt_written(*old(w)).len() + 4 <= STEP_LIMIT ==> r is Ok,
        r is Ok ==> fdt_written(*final(w)) == fdt_written(*old(w)) + psci_node()
            && at_depth(*final(w), 1),
        r matches Err(e) ==> e is Fdt,
{
    let ghost before = fdt_written(*w);
    proof {
        reveal(psci_node);
        lemma_prop_names();
        lemma_texts();
        lemma_node_names();
    }
    let node: FdtWriterNode = begin(w, "psci")?;
    text(w, "compatible", "arm,psci-0.2")?;
    text(w, "method", "hvc")?;
    end(w, node)?;
    assert(fdt_written(*w) =~= before + psci_node());
    Ok(())
}

fn write_gic(w: &mut FdtWriter, redist_size: u64) -> (r: Result<(), BootError>)
    requires
        at_depth(*old(w), 1),
    ensures
        fdt_written(*old(w)).len() + 7 <= STEP_LIMIT ==> r is Ok,
        r is Ok ==> fdt_written(*final(w)) == fdt_written(*old(w)) + gic_node(redist_size)
            && at_depth(*final(w), 1),
        r matches Err(e) ==> e is Fdt,
{
    let ghost before = fdt_written(*w);
    proof {
        reveal(gic_node);
        lemma_prop_names();
        lemma_texts();
        lemma_node_names();
    }
    let node: FdtWriterNode = begin(w, "interrupt-controller@8000000")?;
    text(w, "compatible", "arm,gic-v3")?;
    flag(w, "interrupt-controller")?;
    number(w, "#interrupt-cells", 3)?;
    number(w, "phandle", 1)?;
    wides(w, "reg", vec![GIC_DIST, 0x10000, GIC_REDIST, redist_size].as_slice())?;
    end(w, node)?;
    assert(fdt_written(*w) =~= before + gic_node(redist_size));
    Ok(())
}

fn write_timer(w: &mut FdtWriter, timers: [u32; 2]) -> (r: Result<(), BootError>)
    requires
        at_depth(*old(w), 1),
        timers@[0] >= 16,
        timers@[1] >= 16,
    ensures
        fdt_written(*old(w)).len() + 5 <= STEP_LIMIT ==> r is Ok,
        r is Ok ==> fdt_written(*final(w)) == fdt_written(*old(w)) + timer_node(timers@)
            && at_depth(*final(w), 1),
        r matches Err(e) ==> e is Fdt,
{
    let ghost before = fdt_written(*w);
    proof {
        reveal(timer_node);
        lemma_prop_names();
        lemma_texts();
        lemma_node_names();
    }
    let node: FdtWriterNode = begin(w, "timer")?;
    text(w, "compatible", "arm,armv8-timer")?;
    flag(w, "always-on")?;
    numbers(w, "interrupts", vec![1, 13, 4, 1, timers[0] - 16, 4, 1, timers[1] - 16, 4, 1, 10, 4].as_slice())?;
    end(w, node)?;
    assert(fdt_written(*w) =~= before + timer_node(timers@));
    Ok(())
}

fn write_serial(w: &mut FdtWriter) -> (r: Result<(), BootError>)
    requires
        at_depth(*old(w), 1),
    ensures
        fdt_written(*old(w)).len() + 7 <= STEP_LIMIT ==> r is Ok,
        r is Ok ==> fdt_written(*final(w)) == fdt_written(*old(w)) + serial_node()
            && at_depth(*final(w), 1),
        r matches Err(e) ==> e is Fdt,
{
    let ghost before = fdt_written(*w);
    proof {
        reveal(serial_node);
        lemma_prop_names();
        lemma_texts();
        lemma_node_names();
    }
    let node: FdtWriterNode = begin(w, "serial@9000000")?;
    text(w, "compatible", "ns16550a")?;
    wides(w, "reg", vec![UART, 0x1000].as_slice())?;
    number(w, "clock-frequency", 1843200)?;
    number(w, "reg-io-width", 1)?;
    numbers(w, "interrupts", vec![0, UART_IRQ - 32, 4].as_slice())?;
    end(w, node)?;
    assert(fdt_written(*w) =~= before + serial_node());
    Ok(())
}

fn write_device(w: &mut FdtWriter, d: &VirtioRegion) -> (r: Result<(), BootError>)
    requires
        at_depth(*old(w), 1),
        d.irq >= 32,
    ensures
        fdt_written(*old(w)).len() + 6 <= STEP_LIMIT ==> r is Ok,
        r is Ok ==> fdt_written(*final(w)) == fdt_written(*old(w)) + device_node(*d)
            && at_depth(*final(w), 1),
        r matches Err(e) ==> e is Fdt,
{
    let ghost before = fdt_written(*w);
    proof {
        reveal(device_node);
        lemma_prop_names();
        lemma_texts();
        lemma_node_names();
    }
    let name: String = unit_name("virtio_mmio@", d.address);
    assert(node_name("virtio_mmio@"@ + hex(d.address)));
    let node: FdtWriterNode = begin(w, name.as_str())?;
    text(w, "compatible", "virtio,mmio")?;
    wides(w, "reg", vec![d.address, VIRTIO_STRIDE].as_slice())?;
    numbers(w, "interrupts", vec![0, d.irq - 32, 4].as_slice())?;
    flag(w, "dma-coherent")?;
    end(w, node)?;
    assert(fdt_written(*w) =~= before + device_node(*d));
    Ok(())
}

fn write_cpu(w: &mut FdtWriter, id: u32) -> (r: Result<(), BootError>)
    requires
        at_depth(*old(w), 2),
    ensures
        fdt_written(*old(w)).len() + 6 <= STEP_LIMIT ==> r is Ok,
        r is Ok ==> fdt_written(*final(w)) == fdt_written(*old(w)) + cpu_node(id) && at_depth(
            *final(w),
            2,
        ),
        r matches Err(e) ==> e is Fdt,
{
    let ghost before = fdt_written(*w);
    proof {
        reveal(cpu_node);
        lemma_prop_names();
        lemma_texts();
        lemma_node_names();
    }
    let name: String = unit_name("cpu@", id as u64);
    assert(node_name("cpu@"@ + hex(id as u64)));
    let node: FdtWriterNode = begin(w, name.as_str())?;
    text(w, "device_type", "cpu")?;
    text(w, "compatible", "arm,arm-v8")?;
    number(w, "reg", id)?;
    text(w, "enable-method", "psci")?;
    end(w, node)?;
    assert(fdt_written(*w) =~= before + cpu_node(id));
    Ok(())
}

proof fn lemma_cpu_nodes_len(n: nat)
    ensures
        cpu_nodes(n).len() == 6 * n,
    decreases n,
{
    if n > 0 {
        reveal(cpu_node);
        lemma_cpu_nodes_len((n - 1) as nat);
    }
}

proof fn lemma_device_nodes_len(devices: Seq<VirtioRegion>, n: nat)
    ensures
        device_nodes(devices, n).len() == 6 * n,
    decreases n,
{
    if n > 0 {
        reveal(device_node);
        lemma_device_nodes_len(devices, (n - 1) as nat);
    }
}

fn write_cpus(w: &mut FdtWriter, vcpu_count: u32) -> (r: Result<(), BootError>)
    requires
        at_depth(*old(w), 1),
    ensures
        fdt_written(*old(w)).len() + 6 * vcpu_count + 4 <= STEP_LIMIT ==> r is Ok,
        r is Ok ==> fdt_written(*final(w)) == fdt_written(*old(w)) + cpus_node(vcpu_count)
            && at_depth(*final(w), 1),
        r matches Err(e) ==> e is Fdt,
{
    let ghost before = fdt_written(*w);
    proof {
        reveal(cpus_node);
        lemma_prop_names();
        lemma_node_names();
    }
    let node: FdtWriterNode = begin(w, "cpus")?;
    number(w, "#address-cells", 1)?;
    number(w, "#size-cells", 0)?;
    let ghost head = seq![
        (Step::Begin { name: "cpus"@ }),
        number_prop("#address-cells"@, 1),
        number_prop("#size-cells"@, 0),
    ];
    assert(fdt_written(*w) =~= before + head + cpu_nodes(0));
    let mut id: u32 = 0;
    while id < vcpu_count
        invariant
            id <= vcpu_count,
            at_depth(*w, 2),
            before == fdt_written(*old(w)),
            head.len() == 3,
            fdt_depth(node) == 2,
            fdt_written(*w) == before + head + cpu_nodes(id as nat),
        decreases vcpu_count - id,
    {
        proof {
            lemma_cpu_nodes_len(id as nat);
        }
        write_cpu(w, id)?;
        assert(fdt_written(*w) =~= before + head + cpu_nodes((id + 1) as nat));
        id = id + 1;
    }
    end(w, node)?;
    assert(fdt_written(*w) =~= before + cpus_node(vcpu_count));
    Ok(())
}

fn write_devices(w: &mut FdtWriter, devices: &[VirtioRegion]) -> (r: Result<(), BootError>)
    requires
        at_depth(*old(w), 1),
        forall|i: int| 0 <= i < devices@.len() ==> (#[trigger] devices@[i]).irq >= 32,
    ensures
        fdt_written(*old(w)).len() + 6 * devices@.len() <= STEP_LIMIT ==> r is Ok,
        r is Ok ==> fdt_written(*final(w)) == fdt_written(*old(w)) + device_nodes(
            devices@,
            devices@.len(),
        ) && at_depth(*final(w), 1),
        r matches Err(e) ==> e is Fdt,
{
    let ghost before = fdt_written(*w);
    let mut i: usize = 0;
    assert(fdt_written(*w) =~= before + device_nodes(devices@, 0));
    while i < devices.len()
        invariant
            i <= devices@.len(),
            at_depth(*w, 1),
            before == fdt_written(*old(w)),
            forall|i: int| 0 <= i < devices@.len() ==> (#[trigger] devices@[i]).irq >= 32,
            fdt_written(*w) == before + device_nodes(devices@, i as nat),
        decreases devices@.len() - i,
    {
        proof {
            lemma_device_nodes_len(devices@, i as nat);
        }
        write_device(w, &devices[i])?;
        assert(fdt_written(*w) =~= before + device_nodes(devices@, (i + 1) as nat));
        i = i + 1;
    }
    Ok(())
}

fn write_root(w: &mut FdtWriter) -> (r: Result<FdtWriterNode, BootError>)
    requires
        fdt_written(*old(w)).len() == 0,
    ensures
        r matches Ok(n) ==> fdt_depth(n) == 1 && fdt_written(*final(w)) == root_steps()
            && at_depth(*final(w), 1),
        r is Ok,
{
    proof {
        reveal(root_steps);
        lemma_prop_names();
        lemma_texts();
        lemma_node_names();
    }
    let root: FdtWriterNode = begin(w, "")?;
    text(w, "compatible", "w-vmm,arm64")?;
    number(w, "#address-cells", 2)?;
    number(w, "#size-cells", 2)?;
    number(w, "interrupt-parent", 1)?;
    assert(fdt_written(*w) =~= root_steps());
    Ok(root)
}

proof fn lemma_node_lens(
    l: Layout,
    initrd_len: usize,
    redist_size: u64,
    timers: Seq<u32>,
    vcpu_count: u32,
    virtio_mem: bool,
)
    ensures
        root_steps().len() == 5,
        chosen_node(l, initrd_len, virtio_mem).len() == 6,
        memory_node(l).len() == 4,
        cpus_node(vcpu_count).len() == 6 * vcpu_count + 4,
        psci_node().len() == 4,
        gic_node(redist_size).len() == 7,
        timer_node(timers).len() == 5,
        serial_node().len() == 7,
{
    reveal(root_steps);
    reveal(chosen_node);
    reveal(memory_node);
    reveal(cpus_node);
    reveal(psci_node);
    reveal(gic_node);
    reveal(timer_node);
    reveal(serial_node);
    lemma_cpu_nodes_len(vcpu_count as nat);
}

/// How many steps the tree takes.
pub open spec fn tree_len(devices: nat, vcpu_count: u32) -> int {
    43 + 6 * vcpu_count + 6 * devices
}

/// Writes the device tree of a machine with `initrd_len` bytes of initial
/// ramdisk. `timers` are the interrupts of the physical and the virtual timer.
pub fn fdt(
    l: &Layout,
    initrd_len: usize,
    devices: &[VirtioRegion],
    redist_size: u64,
    timers: [u32; 2],
    vcpu_count: u32,
    virtio_mem: bool,
) -> (r: Result<Vec<u8>, BootError>)
    requires
        l.initrd + initrd_len <= u64::MAX,
        timers@[0] >= 16,
        timers@[1] >= 16,
        forall|i: int| 0 <= i < devices@.len() ==> (#[trigger] devices@[i]).irq >= 32,
    ensures
        vcpu_count == 0 ==> r == Err::<Vec<u8>, BootError>(BootError::AtLeastOneCpuRequired),
        r matches Err(e) ==> vcpu_count == 0 || e is Fdt,
        r matches Ok(b) ==> b@ == fdt_finished(
            tree(*l, initrd_len, devices@, redist_size, timers@, vcpu_count, virtio_mem),
        ) && be32(b@, 0) == 0xd00d_feed && be32(b@, 4) == b@.len(),
        0 < vcpu_count && tree_len(devices@.len(), vcpu_count) <= STEP_LIMIT && total_weight(
            tree(*l, initrd_len, devices@, redist_size, timers@, vcpu_count, virtio_mem),
        ) + 64 <= u32::MAX ==> r is Ok,
        0 < vcpu_count <= 512 && devices@.len() <= 986 ==> r is Ok && r->Ok_0@.len()
            <= crate::boot::DTB_SPACE,
{
    if vcpu_count == 0 {
        return Err(BootError::AtLeastOneCpuRequired);
    }
    let ghost whole = tree(
        *l,
        initrd_len,
        devices@,
        redist_size,
        timers@,
        vcpu_count,
        virtio_mem,
    );
    proof {
        lemma_node_lens(*l, initrd_len, redist_size, timers@, vcpu_count, virtio_mem);
        lemma_device_nodes_len(devices@, devices@.len());
        if vcpu_count <= 512 && devices@.len() <= 986 {
            tree_fits_reserved_space(
                *l,
                initrd_len,
                devices@,
                redist_size,
                timers@,
                vcpu_count,
                virtio_mem,
            );
        }
    }
    let mut writer: FdtWriter = match writer_new() {
        Ok(writer) => writer,
        Err(_) => {
            return Err(BootError::Fdt);
        },
    };
    let w: &mut FdtWriter = &mut writer;
    let root: FdtWriterNode = write_root(w)?;
    write_chosen(w, l, initrd_len, virtio_mem)?;
    write_memory(w, l)?;
    write_cpus(w, vcpu_count)?;
    write_psci(w)?;
    write_gic(w, redist_size)?;
    write_timer(w, timers)?;
    write_serial(w)?;
    write_devices(w, devices)?;
    end(w, root)?;
    assert(fdt_written(*w) =~= whole);
    match writer_finish(writer) {
        Ok(blob) => Ok(blob),
        Err(_) => Err(BootError::Fdt),
    }
}

/// Steps of at most `k` each.
proof fn lemma_bounded_steps(steps: Seq<Step>, k: int)
    requires
        0 <= k,
        forall|i: int| 0 <= i < steps.len() ==> weight(#[trigger] steps[i]) <= k,
    ensures
        total_weight(steps) <= k * steps.len(),
    decreases steps.len(),
{
    if steps.len() > 0 {
        let rest = steps.drop_last();
        assert forall|i: int| 0 <= i < rest.len() implies weight(#[trigger] rest[i]) <= k by {
            assert(rest[i] == steps[i]);
        }
        lemma_bounded_steps(rest, k);
        assert(steps[steps.len() - 1] == steps.last());
        assert(k * steps.len() == k * rest.len() + k) by (nonlinear_arith)
            requires
                steps.len() == rest.len() + 1,
        ;
    } else {
        assert(k * steps.len() == 0) by (nonlinear_arith)
            requires
                steps.len() == 0,
        ;
    }
}

/// A text of at most `n` characters makes a property of bounded weight.
proof fn lemma_text_weight(name: Seq<char>, value: Seq<char>, n: int)
    requires
        prop_name(name),
        value.len() <= n,
    ensures
        weight(text_prop(name, value)) <= 141 + 4 * n,
{
    lemma_utf8_len(value);
}

proof fn lemma_cpu_weight(n: nat)
    ensures
        total_weight(cpu_nodes(n)) <= 1230 * n,
    decreases n,
{
    if n > 0 {
        reveal(cpu_node);
        lemma_cpu_weight((n - 1) as nat);
        lemma_weight_concat(cpu_nodes((n - 1) as nat), cpu_node((n - 1) as u32));
        lemma_prop_names();
        lemma_texts();
        lemma_hex(((n - 1) as u32) as u64);
        reveal_strlit("cpu@");
        lemma_text_weight("device_type"@, "cpu"@, 16);
        lemma_text_weight("compatible"@, "arm,arm-v8"@, 16);
        lemma_text_weight("enable-method"@, "psci"@, 16);
        lemma_bounded_steps(cpu_node((n - 1) as u32), 205);
    }
}

proof fn lemma_device_weight(devices: Seq<VirtioRegion>, n: nat)
    ensures
        total_weight(device_nodes(devices, n)) <= 1230 * n,
    decreases n,
{
    if n > 0 {
        let d = devices[n - 1];
        reveal(device_node);
        lemma_device_weight(devices, (n - 1) as nat);
        lemma_weight_concat(device_nodes(devices, (n - 1) as nat), device_node(d));
        lemma_prop_names();
        lemma_texts();
        lemma_hex(d.address);
        reveal_strlit("virtio_mmio@");
        lemma_text_weight("compatible"@, "virtio,mmio"@, 16);
        lemma_cells64_len(seq![d.address, VIRTIO_STRIDE]);
        lemma_cells32_len(seq![0u32, (d.irq - 32) as u32, 4]);
        lemma_bounded_steps(device_node(d), 205);
    }
}

proof fn weigh_root()
    ensures
        total_weight(root_steps()) <= 1025,
{
    reveal(root_steps);
    lemma_prop_names();
    lemma_texts();
    reveal_strlit("");
    lemma_text_weight("compatible"@, "w-vmm,arm64"@, 16);
    lemma_bounded_steps(root_steps(), 205);
}

proof fn weigh_chosen(l: Layout, initrd_len: usize, virtio_mem: bool)
    ensures
        total_weight(chosen_node(l, initrd_len, virtio_mem)) <= 6990,
{
    reveal(chosen_node);
    lemma_prop_names();
    lemma_texts();
    reveal_strlit("chosen");
    reveal_strlit("console=ttyS0,115200 earlycon=uart8250,mmio,0x09000000 rdinit=/init panic=-1");
    reveal_strlit(" memory_hotplug.online_policy=auto-movable memory_hotplug.auto_movable_ratio=301 memhp_default_state=online");
    lemma_text_weight("bootargs"@, bootargs(virtio_mem), 256);
    lemma_text_weight("stdout-path"@, "/serial@9000000"@, 16);
    lemma_bounded_steps(chosen_node(l, initrd_len, virtio_mem), 1165);
}

proof fn weigh_memory(l: Layout)
    ensures
        total_weight(memory_node(l)) <= 820,
{
    reveal(memory_node);
    lemma_prop_names();
    lemma_texts();
    reveal_strlit("memory@40000000");
    lemma_text_weight("device_type"@, "memory"@, 16);
    lemma_cells64_len(seq![RAM, l.size as u64]);
    lemma_bounded_steps(memory_node(l), 205);
}

proof fn weigh_psci()
    ensures
        total_weight(psci_node()) <= 820,
{
    reveal(psci_node);
    lemma_prop_names();
    lemma_texts();
    reveal_strlit("psci");
    lemma_text_weight("compatible"@, "arm,psci-0.2"@, 16);
    lemma_text_weight("method"@, "hvc"@, 16);
    lemma_bounded_steps(psci_node(), 205);
}

proof fn weigh_gic(redist_size: u64)
    ensures
        total_weight(gic_node(redist_size)) <= 1435,
{
    reveal(gic_node);
    lemma_prop_names();
    lemma_texts();
    reveal_strlit("interrupt-controller@8000000");
    lemma_text_weight("compatible"@, "arm,gic-v3"@, 16);
    lemma_cells64_len(seq![GIC_DIST, 0x10000, GIC_REDIST, redist_size]);
    lemma_bounded_steps(gic_node(redist_size), 205);
}

proof fn weigh_timer(timers: Seq<u32>)
    ensures
        total_weight(timer_node(timers)) <= 1025,
{
    reveal(timer_node);
    lemma_prop_names();
    lemma_texts();
    reveal_strlit("timer");
    lemma_text_weight("compatible"@, "arm,armv8-timer"@, 16);
    lemma_cells32_len(
        seq![
            1u32,
            13,
            4,
            1,
            (timers[0] - 16) as u32,
            4,
            1,
            (timers[1] - 16) as u32,
            4,
            1,
            10,
            4,
        ],
    );
    lemma_bounded_steps(timer_node(timers), 205);
}

proof fn weigh_serial()
    ensures
        total_weight(serial_node()) <= 1435,
{
    reveal(serial_node);
    lemma_prop_names();
    lemma_texts();
    reveal_strlit("serial@9000000");
    lemma_text_weight("compatible"@, "ns16550a"@, 16);
    lemma_cells64_len(seq![UART, 0x1000]);
    lemma_cells32_len(seq![0u32, (UART_IRQ - 32) as u32, 4]);
    lemma_bounded_steps(serial_node(), 205);
}

proof fn weigh_cpus(vcpu_count: u32)
    ensures
        total_weight(cpus_node(vcpu_count)) <= 1230 * vcpu_count + 619,
{
    reveal(cpus_node);
    lemma_prop_names();
    reveal_strlit("cpus");
    lemma_cpu_weight(vcpu_count as nat);
    let head = seq![
        (Step::Begin { name: "cpus"@ }),
        number_prop("#address-cells"@, 1),
        number_prop("#size-cells"@, 0),
    ];
    let nodes = cpu_nodes(vcpu_count as nat);
    let tail = seq![Step::End];
    lemma_bounded_steps(head, 205);
    lemma_bounded_steps(tail, 4);
    lemma_weight_concat(head, nodes);
    lemma_weight_concat(head + nodes, tail);
}

/// The blob of a machine with up to 512 vCPUs and as many devices as there are
/// interrupts fits the space that is kept for it.
pub proof fn tree_fits_reserved_space(
    l: Layout,
    initrd_len: usize,
    devices: Seq<VirtioRegion>,
    redist_size: u64,
    timers: Seq<u32>,
    vcpu_count: u32,
    virtio_mem: bool,
)
    requires
        vcpu_count <= 512,
        devices.len() <= 986,
    ensures
        total_weight(
            tree(l, initrd_len, devices, redist_size, timers, vcpu_count, virtio_mem),
        ) + 64 <= crate::boot::DTB_SPACE,
{
    weigh_root();
    weigh_chosen(l, initrd_len, virtio_mem);
    weigh_memory(l);
    weigh_cpus(vcpu_count);
    weigh_psci();
    weigh_gic(redist_size);
    weigh_timer(timers);
    weigh_serial();
    lemma_device_weight(devices, devices.len());
    let chosen = chosen_node(l, initrd_len, virtio_mem);
    let list = device_nodes(devices, devices.len());
    let tail = seq![Step::End];
    lemma_bounded_steps(tail, 4);
    let a = root_steps();
    let b = a + chosen;
    let c = b + memory_node(l);
    let d = c + cpus_node(vcpu_count);
    let e = d + psci_node();
    let f = e + gic_node(redist_size);
    let g = f + timer_node(timers);
    let h = g + serial_node();
    lemma_weight_concat(a, chosen);
    lemma_weight_concat(b, memory_node(l));
    lemma_weight_concat(c, cpus_node(vcpu_count));
    lemma_weight_concat(d, psci_node());
    lemma_weight_concat(e, gic_node(redist_size));
    lemma_weight_concat(f, timer_node(timers));
    lemma_weight_concat(g, serial_node());
    lemma_weight_concat(h, list);
    lemma_weight_concat(h + list, tail);
}

} // verus!

//! The built-in Apple Silicon platform: what it asks of a machine and of the
//! host's interrupt controller.
use crate::boot::{
    region_of, layout_of, validate_ipa_range, virtio_regions, Layout, VirtioRegion, GIC_REDIST,
    IRQ_END, RAM, UART, UART_IRQ, VIRTIO_IRQ_BASE, VIRTIO_STRIDE,
};
use crate::error::{BootError, PlatformError};
use crate::platform::{
    claim, claim_ram, claim_virtio, collide, with_claim, Claim, DeviceRequirements, IoRegion, IoSpace, MachineLayout, MemoryRange, MemoryRequirement, VmConfig,
};
use vstd::arithmetic::power2::pow2;
use vstd::prelude::*;

verus! {

/// Built-in Apple Silicon platform using the bundled ARM64 guest.
#[derive(Clone, Copy, Debug)]
pub struct Hvf;

/// What the host allows, or why it did not tell.
#[derive(Debug)]
pub struct Limits {
    pub max_vcpus: Result<u32, PlatformError>,
    pub ipa_bits: Result<u32, PlatformError>,
}

/// The status of a hypervisor call.
pub fn check(code: i32, operation: &str) -> (r: Result<(), PlatformError>)
    ensures
        r is Ok <==> code == 0,
        r matches Err(e) ==> e is Hypervisor && e->Hypervisor_operation@ == operation@
            && e->Hypervisor_code == code,
{
    if code == 0 {
        Ok(())
    } else {
        Err(PlatformError::Hypervisor { operation: operation.to_owned(), code })
    }
}

/// The interrupts of the UART and of every device lie in the host's range.
pub open spec fn irqs_in_range(base: u32, end: int, regions: Seq<VirtioRegion>) -> bool {
    &&& base <= UART_IRQ < end
    &&& forall|i: int| 0 <= i < regions.len() ==> base <= (#[trigger] regions[i]).irq < end
}

/// Why the host's controller does not do, if so.
pub open spec fn irqs_checked(base: u32, count: u32, regions: Seq<VirtioRegion>) -> Result<
    (),
    PlatformError,
> {
    if base + count > u32::MAX {
        Err(PlatformError::InvalidGicSpiRange)
    } else if !irqs_in_range(base, base + count, regions) {
        Err(PlatformError::GicSpiRange { base, end: (base + count) as u32 })
    } else {
        Ok(())
    }
}

/// Refuses devices whose interrupts the host's controller does not have: it has
/// `count` from `base` on.
pub fn validate_irqs(base: u32, count: u32, regions: &Vec<VirtioRegion>) -> (r: Result<
    (),
    PlatformError,
>)
    ensures
        r == irqs_checked(base, count, regions@),
{
    let end: u32 = match base.checked_add(count) {
        Some(end) => end,
        None => {
            return Err(PlatformError::InvalidGicSpiRange);
        },
    };
    if !(base <= UART_IRQ && UART_IRQ < end) {
        return Err(PlatformError::GicSpiRange { base, end });
    }
    let mut i: usize = 0;
    while i < regions.len()
        invariant
            i <= regions@.len(),
            end == base + count,
            base <= UART_IRQ < end,
            forall|k: int| 0 <= k < i ==> base <= (#[trigger] regions@[k]).irq < end,
        decreases regions@.len() - i,
    {
        let irq: u32 = regions[i].irq;
        if !(base <= irq && irq < end) {
            assert(!(base <= regions@[i as int].irq < end));
            return Err(PlatformError::GicSpiRange { base, end });
        }
        i = i + 1;
    }
    Ok(())
}

/// The size of the redistributors, if it does.
pub open spec fn redistributors_checked(size: u64) -> Result<u64, PlatformError> {
    if GIC_REDIST + size <= RAM {
        Ok(size)
    } else {
        Err(PlatformError::GicOverlapsRam)
    }
}

/// Refuses an interrupt controller whose redistributors of `size` bytes reach
/// into memory.
pub fn check_redistributors(size: u64) -> (r: Result<u64, PlatformError>)
    ensures
        r == redistributors_checked(size),
{
    if size <= RAM - GIC_REDIST {
        Ok(size)
    } else {
        Err(PlatformError::GicOverlapsRam)
    }
}

/// Refuses memory whose start or size is no multiple of the host's page.
pub fn check_pages(address: usize, size: usize, page: usize) -> (r: Result<(), PlatformError>)
    requires
        page > 0,
    ensures
        r == if address % page == 0 && size % page == 0 {
            Ok::<(), PlatformError>(())
        } else {
            Err(PlatformError::HvfHostPageAlignment)
        },
{
    if address % page == 0 && size % page == 0 {
        Ok(())
    } else {
        Err(PlatformError::HvfHostPageAlignment)
    }
}

/// The least multiple of `unit` from `value` on.
pub open spec fn round_up(value: int, unit: int) -> int {
    if value % unit == 0 {
        value
    } else {
        value - value % unit + unit
    }
}

/// Where dynamic memory lies: behind `ram`, aligned.
pub open spec fn hotplug_of(ram: MemoryRange, n: MemoryRequirement) -> Result<
    MemoryRange,
    PlatformError,
> {
    let end = ram.address + ram.size;
    if end > u64::MAX || n.alignment == 0 || round_up(end, n.alignment as int) > u64::MAX {
        Err(PlatformError::HotplugOverflow)
    } else {
        Ok(MemoryRange { address: round_up(end, n.alignment as int) as u64, size: n.capacity })
    }
}

fn hotplug_range(ram: &MemoryRange, n: &MemoryRequirement) -> (r: Result<
    MemoryRange,
    PlatformError,
>)
    ensures
        r == hotplug_of(*ram, *n),
{
    let end: u64 = match ram.address.checked_add(ram.size) {
        Some(end) => end,
        None => {
            return Err(PlatformError::HotplugOverflow);
        },
    };
    if n.alignment == 0 {
        return Err(PlatformError::HotplugOverflow);
    }
    let rest: u64 = end % n.alignment;
    if rest == 0 {
        return Ok(MemoryRange { address: end, size: n.capacity });
    }
    match end.checked_add(n.alignment - rest) {
        Some(address) => Ok(MemoryRange { address, size: n.capacity }),
        None => Err(PlatformError::HotplugOverflow),
    }
}

/// Why the host cannot map `range`.
pub open spec fn ipa_refusal(range: MemoryRange, bits: Result<u32, PlatformError>) -> Option<
    PlatformError,
> {
    match bits {
        Err(e) => Some(e),
        Ok(bits) => if bits < 1 || 64 < bits {
            Some(PlatformError::Boot(BootError::InvalidIpaWidth { bits }))
        } else if range.address + range.size > u64::MAX {
            Some(
                PlatformError::Boot(
                    BootError::MemoryAddressOverflow { start: range.address, size: range.size },
                ),
            )
        } else if bits < 64 && range.address + range.size > pow2(bits as nat) {
            Some(
                PlatformError::Boot(
                    BootError::IpaRange {
                        start: range.address,
                        end: (range.address + range.size) as u64,
                        bits,
                    },
                ),
            )
        } else {
            None
        },
    }
}

/// A device region of the machine.
pub open spec fn io_region(i: int) -> IoRegion {
    IoRegion {
        space: IoSpace::Mmio,
        address: region_of(i).address,
        size: VIRTIO_STRIDE,
        irq: region_of(i).irq,
    }
}

/// `r` is the machine with `ram` and `hotplug` and `count` devices.
pub open spec fn machine(
    r: MachineLayout,
    ram: MemoryRange,
    hotplug: Option<MemoryRange>,
    count: nat,
) -> bool {
    &&& r.ram@ == seq![ram]
    &&& r.hotplug == hotplug
    &&& r.uart == (IoRegion { space: IoSpace::Mmio, address: UART, size: 8, irq: UART_IRQ })
    &&& r.virtio@ == Seq::new(count, |i: int| io_region(i))
}

/// Why the platform refuses a machine, as far as the image and the number of
/// vCPUs decide, or the memory it gets.
pub open spec fn base_of(
    config: VmConfig,
    kernel: Seq<u8>,
    initrd_len: usize,
    max: Result<u32, PlatformError>,
) -> Result<MemoryRange, PlatformError> {
    match layout_of(config.memory_mib, kernel, initrd_len) {
        Err(e) => Err(PlatformError::Boot(e)),
        Ok(boot) => match max {
            Err(e) => Err(e),
            Ok(max) => if 1 <= config.vcpu_count <= max {
                Ok(MemoryRange { address: RAM, size: boot.size as u64 })
            } else {
                Err(PlatformError::UnsupportedVcpuCount)
            },
        },
    }
}

/// The dynamic memory that `devices` ask for behind `ram`.
pub open spec fn dynamic_of(ram: MemoryRange, wanted: Option<MemoryRequirement>) -> Result<
    Option<MemoryRange>,
    PlatformError,
> {
    match wanted {
        None => Ok(None),
        Some(n) => match hotplug_of(ram, n) {
            Err(e) => Err(e),
            Ok(h) => Ok(Some(h)),
        },
    }
}

/// Why the host cannot map the memory.
pub open spec fn unmappable(
    ram: MemoryRange,
    hotplug: Option<MemoryRange>,
    bits: Result<u32, PlatformError>,
) -> Option<PlatformError> {
    match ipa_refusal(ram, bits) {
        Some(e) => Some(e),
        None => match hotplug {
            Some(h) => ipa_refusal(h, bits),
            None => None,
        },
    }
}

/// `r` answers what machine `config` and its devices get: the first check that
/// fails decides the error.
pub open spec fn platform_layout(
    config: VmConfig,
    wanted: Option<MemoryRequirement>,
    count: nat,
    kernel: Seq<u8>,
    initrd_len: usize,
    max: Result<u32, PlatformError>,
    bits: Result<u32, PlatformError>,
    r: Result<MachineLayout, PlatformError>,
) -> bool {
    match base_of(config, kernel, initrd_len, max) {
        Err(e) => r == Err::<MachineLayout, PlatformError>(e),
        Ok(ram) => match dynamic_of(ram, wanted) {
            Err(e) => r == Err::<MachineLayout, PlatformError>(e),
            Ok(hotplug) => match unmappable(ram, hotplug, bits) {
                Some(e) => r == Err::<MachineLayout, PlatformError>(e),
                None => if count > IRQ_END - VIRTIO_IRQ_BASE {
                    r == Err::<MachineLayout, PlatformError>(
                        PlatformError::Boot(
                            BootError::TooManyVirtioDevicesForGicSpis { count: count as usize },
                        ),
                    )
                } else {
                    r is Ok && machine(r->Ok_0, ram, hotplug, count)
                },
            },
        },
    }
}

fn check_range(range: &MemoryRange, bits: u32) -> (r: Result<(), PlatformError>)
    ensures
        r == match ipa_refusal(*range, Ok(bits)) {
            Some(e) => Err::<(), PlatformError>(e),
            None => Ok(()),
        },
{
    match validate_ipa_range(range.address, range.size, bits) {
        Ok(()) => Ok(()),
        Err(e) => Err(PlatformError::Boot(e)),
    }
}

impl Hvf {
    /// The machine for `config` and its devices, with the given guest on a host
    /// of the given limits.
    pub fn layout(
        config: &VmConfig,
        devices: &DeviceRequirements,
        kernel: &[u8],
        initrd_len: usize,
        limits: Limits,
    ) -> (r: Result<MachineLayout, PlatformError>)
        ensures
            platform_layout(
                *config,
                devices.hotplug,
                devices.devices@.len(),
                kernel@,
                initrd_len,
                limits.max_vcpus,
                limits.ipa_bits,
                r,
            ),
    {
        let boot: Layout = match Layout::new(config.memory_mib, kernel, initrd_len) {
            Ok(boot) => boot,
            Err(e) => {
                return Err(PlatformError::Boot(e));
            },
        };
        let max: u32 = match limits.max_vcpus {
            Ok(max) => max,
            Err(e) => {
                return Err(e);
            },
        };
        if !(1 <= config.vcpu_count && config.vcpu_count <= max) {
            return Err(PlatformError::UnsupportedVcpuCount);
        }
        let ram: MemoryRange = MemoryRange { address: RAM, size: boot.size as u64 };
        let hotplug: Option<MemoryRange> = match &devices.hotplug {
            None => None,
            Some(n) => match hotplug_range(&ram, n) {
                Ok(h) => Some(h),
                Err(e) => {
                    return Err(e);
                },
            },
        };
        let bits: u32 = match limits.ipa_bits {
            Ok(bits) => bits,
            Err(e) => {
                return Err(e);
            },
        };
        match check_range(&ram, bits) {
            Ok(()) => {},
            Err(e) => {
                return Err(e);
            },
        }
        match &hotplug {
            None => {},
            Some(h) => match check_range(h, bits) {
                Ok(()) => {},
                Err(e) => {
                    return Err(e);
                },
            },
        }
        let regions: Vec<VirtioRegion> = match virtio_regions(devices.devices.len()) {
            Ok(regions) => regions,
            Err(e) => {
                return Err(PlatformError::Boot(e));
            },
        };
        let mut virtio: Vec<IoRegion> = Vec::new();
        let mut i: usize = 0;
        while i < regions.len()
            invariant
                i <= regions@.len(),
                regions@ == Seq::new(regions@.len(), |i: int| region_of(i)),
                virtio@ =~= Seq::new(i as nat, |i: int| io_region(i)),
            decreases regions@.len() - i,
        {
            virtio.push(
                IoRegion {
                    space: IoSpace::Mmio,
                    address: regions[i].address,
                    size: VIRTIO_STRIDE,
                    irq: regions[i].irq,
                },
            );
            i = i + 1;
        }
        let mut all: Vec<MemoryRange> = Vec::new();
        all.push(ram);
        assert(all@ =~= seq![ram]);
        Ok(
            MachineLayout {
                ram: all,
                uart: IoRegion { space: IoSpace::Mmio, address: UART, size: 8, irq: UART_IRQ },
                virtio,
                hotplug,
            },
        )
    }
}

/// The device regions of the platform can all be claimed beside its memory and
/// its UART.
proof fn lemma_devices_claimed(base: Seq<Claim>, count: nat)
    requires
        count <= IRQ_END - VIRTIO_IRQ_BASE,
        base.len() == 2,
        base[0].space == IoSpace::Mmio && RAM <= base[0].address,
        base[1] == claim(IoSpace::Mmio, UART, 8),
    ensures
        claim_virtio(base, Seq::new(count, |i: int| io_region(i))) == Ok::<
            Seq<Claim>,
            PlatformError,
        >(
            base + Seq::new(
                count,
                |i: int| claim(IoSpace::Mmio, io_region(i).address, VIRTIO_STRIDE),
            ),
        ),
    decreases count,
{
    let all = Seq::new(count, |i: int| io_region(i));
    let list = Seq::new(
        count,
        |i: int| claim(IoSpace::Mmio, io_region(i).address, VIRTIO_STRIDE),
    );
    if count == 0 {
        assert(base + list =~= base);
    } else {
        let less = (count - 1) as nat;
        lemma_devices_claimed(base, less);
        assert(all.drop_last() =~= Seq::new(less, |i: int| io_region(i)));
        let before = base + Seq::new(
            less,
            |i: int| claim(IoSpace::Mmio, io_region(i).address, VIRTIO_STRIDE),
        );
        let r = io_region(less as int);
        assert(all.last() == r);
        let new = claim(IoSpace::Mmio, r.address, VIRTIO_STRIDE);
        assert forall|i: int| 0 <= i < before.len() implies !#[trigger] collide(
            before[i],
            new,
        ) by {
            if i >= 2 {
                assert(before[i] == claim(
                    IoSpace::Mmio,
                    io_region(i - 2).address,
                    VIRTIO_STRIDE,
                ));
                crate::boot::device_regions_are_apart(i - 2, less as int);
            } else {
                assert(before[i] == base[i]);
            }
        }
        assert(base + list =~= before.push(new));
    }
}

/// Every machine that the platform hands out passes the check that every
/// platform's layout has to pass.
pub proof fn layouts_are_valid(
    config: VmConfig,
    needs: DeviceRequirements,
    kernel: Seq<u8>,
    initrd_len: usize,
    max: Result<u32, PlatformError>,
    bits: Result<u32, PlatformError>,
    r: Result<MachineLayout, PlatformError>,
)
    requires
        platform_layout(
            config,
            needs.hotplug,
            needs.devices@.len(),
            kernel,
            initrd_len,
            max,
            bits,
            r,
        ),
        r is Ok,
        needs.hotplug matches Some(n) ==> n.capacity > 0,
    ensures
        r->Ok_0.claims(config, needs) is Ok,
{
    let layout = r->Ok_0;
    let ram = base_of(config, kernel, initrd_len, max)->Ok_0;
    crate::boot::layout_parts_do_not_overlap(config.memory_mib, kernel, initrd_len);
    assert(layout.ram@.drop_last() =~= Seq::empty());
    let first = Seq::<Claim>::empty().push(claim(IoSpace::Mmio, ram.address, ram.size));
    assert(claim_ram(layout.ram@.drop_last()) == Ok::<(u64, Seq<Claim>), PlatformError>(
        (0, Seq::empty()),
    ));
    assert(claim_ram(layout.ram@) == Ok::<(u64, Seq<Claim>), PlatformError>((ram.size, first)));
    let base = first.push(claim(IoSpace::Mmio, UART, 8));
    assert(with_claim(first, IoSpace::Mmio, UART, 8) == Ok::<Seq<Claim>, PlatformError>(base));
    let count = needs.devices@.len();
    lemma_devices_claimed(base, count);
    if let (Some(h), Some(n)) = (layout.hotplug, needs.hotplug) {
        let end = ram.address + ram.size;
        let unit = n.alignment as int;
        assert(round_up(end, unit) % unit == 0 && round_up(end, unit) >= end) by (nonlinear_arith)
            requires
                unit > 0,
                end >= 0,
                round_up(end, unit) == if end % unit == 0 {
                    end
                } else {
                    end - end % unit + unit
                },
        {
            vstd::arithmetic::div_mod::lemma_fundamental_div_mod(end, unit);
            if end % unit != 0 {
                assert(end - end % unit + unit == unit * (end / unit + 1));
                vstd::arithmetic::div_mod::lemma_mod_multiples_basic(end / unit + 1, unit);
            }
        }
        let all = base + Seq::new(
            count,
            |i: int| claim(IoSpace::Mmio, io_region(i).address, VIRTIO_STRIDE),
        );
        let new = claim(IoSpace::Mmio, h.address, h.size);
        assert forall|i: int| 0 <= i < all.len() implies !#[trigger] collide(all[i], new) by {
            if i >= 2 {
                assert(all[i] == claim(IoSpace::Mmio, io_region(i - 2).address, VIRTIO_STRIDE));
            } else {
                assert(all[i] == base[i]);
            }
        }
    }
}

} // verus!

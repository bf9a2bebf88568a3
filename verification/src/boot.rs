//! Memory layout, device tree and loading of an ARM64 Linux guest.
use crate::bytes::{get_le64, le64};
use crate::error::{BootError, Failure};
use crate::guest::{covers, Access, Guest, Memory};
use crate::math::power_of_two;
use crate::memory::MIB;
pub use crate::tree::fdt;
use vstd::arithmetic::power2::pow2;
use vstd::prelude::*;

verus! {

pub const RAM: u64 = 0x4000_0000;

pub const UART: u64 = 0x0900_0000;

pub const VIRTIO_BASE: u64 = 0x0a00_0000;

pub const VIRTIO_STRIDE: u64 = 0x1000;

pub const GIC_DIST: u64 = 0x0800_0000;

pub const GIC_REDIST: u64 = 0x1000_0000;

pub const UART_IRQ: u32 = 33;

pub const VIRTIO_IRQ_BASE: u32 = 34;

/// The first interrupt beyond those that devices may have.
pub const IRQ_END: u32 = 1020;

/// Bytes at the end of memory that are kept for the device tree.
pub const DTB_SPACE: u64 = 0x20_0000;

/// The bytes of `mib` mebibytes, if they can be counted.
pub fn mib_bytes(mib: u64) -> (r: Result<u64, BootError>)
    ensures
        r == if mib * MIB <= u64::MAX {
            Ok::<u64, BootError>((mib * MIB) as u64)
        } else {
            Err(BootError::MemoryCapacityConversionOverflow { mib })
        },
{
    match mib.checked_mul(MIB) {
        Some(bytes) => Ok(bytes),
        None => Err(BootError::MemoryCapacityConversionOverflow { mib }),
    }
}

/// Why the host cannot map a range, if so.
pub open spec fn range_checked(start: u64, size: u64, bits: u32) -> Result<(), BootError> {
    if bits < 1 || 64 < bits {
        Err(BootError::InvalidIpaWidth { bits })
    } else if start + size > u64::MAX {
        Err(BootError::MemoryAddressOverflow { start, size })
    } else if bits < 64 && start + size > pow2(bits as nat) {
        Err(BootError::IpaRange { start, end: (start + size) as u64, bits })
    } else {
        Ok(())
    }
}

/// Refuses a range that does not fit an address of `bits` bits.
pub fn validate_ipa_range(start: u64, size: u64, bits: u32) -> (r: Result<(), BootError>)
    ensures
        r == range_checked(start, size, bits),
{
    if bits < 1 || 64 < bits {
        return Err(BootError::InvalidIpaWidth { bits });
    }
    let end: u64 = match start.checked_add(size) {
        Some(end) => end,
        None => {
            return Err(BootError::MemoryAddressOverflow { start, size });
        },
    };
    if bits < 64 {
        let limit: u64 = power_of_two(bits);
        if end > limit {
            return Err(BootError::IpaRange { start, end, bits });
        }
    }
    Ok(())
}

/// Where the parts of a guest lie in its memory.
#[derive(Clone, Copy, Debug, PartialEq, Eq, Structural)]
pub struct Layout {
    /// Bytes of memory.
    pub size: usize,
    /// The first byte of the kernel.
    pub entry: u64,
    pub initrd: u64,
    pub dtb: u64,
}

/// The image carries the ARM64 magic number.
pub open spec fn is_arm64(kernel: Seq<u8>) -> bool {
    &&& kernel.len() >= 64
    &&& kernel[56] == 0x41
    &&& kernel[57] == 0x52
    &&& kernel[58] == 0x4d
    &&& kernel[59] == 0x64
}

/// How much memory the kernel takes: what its header says, or the image itself.
pub open spec fn kernel_span(kernel: Seq<u8>) -> int {
    if le64(kernel, 16) > kernel.len() {
        le64(kernel, 16)
    } else {
        kernel.len() as int
    }
}

/// The layout of `mib` MiB: the kernel at the offset that its header names, the
/// device tree at the end, the initial ramdisk on a 64 KiB boundary before it.
pub open spec fn layout_of(mib: u64, kernel: Seq<u8>, initrd_len: usize) -> Result<
    Layout,
    BootError,
> {
    let offset = le64(kernel, 8);
    let entry = RAM + offset;
    let bytes = mib * MIB;
    let dtb = RAM + bytes - DTB_SPACE;
    let initrd = (dtb - initrd_len) - (dtb - initrd_len) % 0x1_0000;
    if mib < 128 {
        Err(BootError::MemoryMustBeAtLeast128Mib { mib })
    } else if !is_arm64(kernel) {
        Err(BootError::InvalidArm64Image)
    } else if le64(kernel, 16) == 0 {
        Err(BootError::LegacyImageWithoutImageSizeIsUnsupported)
    } else if le64(kernel, 24) % 2 != 0 {
        Err(BootError::BigEndianKernelUnsupported)
    } else if offset % 4096 != 0 {
        Err(BootError::UnalignedKernelTextOffset { offset: offset as u64 })
    } else if entry > u64::MAX {
        Err(BootError::KernelOffsetOverflow { offset: offset as u64 })
    } else if bytes > u64::MAX {
        Err(BootError::MemoryCapacityConversionOverflow { mib })
    } else if bytes > usize::MAX {
        Err(BootError::Integer)
    } else if bytes > isize::MAX {
        Err(BootError::RamExceedsHostAllocationSize { size: bytes as usize })
    } else if initrd_len > dtb {
        Err(BootError::InitrdTooLarge { length: initrd_len })
    } else if entry + kernel_span(kernel) > u64::MAX {
        Err(BootError::ImageSizeOverflow)
    } else if initrd < RAM || entry + kernel_span(kernel) > initrd {
        Err(BootError::KernelInitramfsFdtOverlapOrExceedRam)
    } else {
        Ok(
            Layout {
                size: bytes as usize,
                entry: entry as u64,
                initrd: initrd as u64,
                dtb: dtb as u64,
            },
        )
    }
}

proof fn lemma_le64_fits(b: Seq<u8>, p: int)
    ensures
        0 <= le64(b, p) <= u64::MAX,
{
}

impl Layout {
    pub fn new(mib: u64, kernel: &[u8], initrd_len: usize) -> (r: Result<Self, BootError>)
        ensures
            r == layout_of(mib, kernel@, initrd_len),
    {
        if mib < 128 {
            return Err(BootError::MemoryMustBeAtLeast128Mib { mib });
        }
        if !(kernel.len() >= 64 && kernel[56] == 0x41 && kernel[57] == 0x52 && kernel[58] == 0x4d
            && kernel[59] == 0x64) {
            return Err(BootError::InvalidArm64Image);
        }
        let image_size: u64 = get_le64(kernel, 16);
        if image_size == 0 {
            return Err(BootError::LegacyImageWithoutImageSizeIsUnsupported);
        }
        if get_le64(kernel, 24) % 2 != 0 {
            return Err(BootError::BigEndianKernelUnsupported);
        }
        let offset: u64 = get_le64(kernel, 8);
        if offset % 4096 != 0 {
            return Err(BootError::UnalignedKernelTextOffset { offset });
        }
        let entry: u64 = match RAM.checked_add(offset) {
            Some(entry) => entry,
            None => {
                return Err(BootError::KernelOffsetOverflow { offset });
            },
        };
        let bytes: u64 = match mib_bytes(mib) {
            Ok(bytes) => bytes,
            Err(e) => {
                return Err(e);
            },
        };
        if bytes > usize::MAX as u64 {
            return Err(BootError::Integer);
        }
        let size: usize = bytes as usize;
        if size > isize::MAX as usize {
            return Err(BootError::RamExceedsHostAllocationSize { size });
        }
        let dtb: u64 = RAM + bytes - DTB_SPACE;
        if initrd_len as u64 > dtb {
            return Err(BootError::InitrdTooLarge { length: initrd_len });
        }
        let top: u64 = dtb - initrd_len as u64;
        let initrd: u64 = top - top % 0x1_0000;
        let span: u64 = if image_size > kernel.len() as u64 {
            image_size
        } else {
            kernel.len() as u64
        };
        let kernel_end: u64 = match entry.checked_add(span) {
            Some(end) => end,
            None => {
                return Err(BootError::ImageSizeOverflow);
            },
        };
        if !(initrd >= RAM && kernel_end <= initrd) {
            return Err(BootError::KernelInitramfsFdtOverlapOrExceedRam);
        }
        Ok(Layout { size, entry, initrd, dtb })
    }
}

/// The parts of an accepted layout follow each other in memory without
/// overlapping: the kernel, the initial ramdisk, the device tree, and the end.
pub proof fn layout_parts_do_not_overlap(mib: u64, kernel: Seq<u8>, initrd_len: usize)
    requires
        layout_of(mib, kernel, initrd_len) is Ok,
    ensures
        ({
            let l = layout_of(mib, kernel, initrd_len)->Ok_0;
            &&& RAM <= l.entry
            &&& l.entry % 4096 == 0
            &&& l.entry + kernel_span(kernel) <= l.initrd
            &&& l.initrd % 0x1_0000 == 0
            &&& l.initrd + initrd_len <= l.dtb
            &&& l.dtb + DTB_SPACE == RAM + l.size
            &&& l.size == mib * MIB
            &&& l.entry < l.initrd
            &&& l.initrd <= l.dtb
        }),
{
    lemma_le64_fits(kernel, 16);
}

#[derive(Clone, Copy, Debug, PartialEq, Eq, Structural)]
pub struct VirtioRegion {
    pub address: u64,
    pub irq: u32,
}

/// Region and interrupt of device number `i`.
pub open spec fn region_of(i: int) -> VirtioRegion {
    VirtioRegion {
        address: (VIRTIO_BASE + i * VIRTIO_STRIDE) as u64,
        irq: (VIRTIO_IRQ_BASE + i) as u32,
    }
}

/// Regions and interrupts for `count` devices.
pub fn virtio_regions(count: usize) -> (r: Result<Vec<VirtioRegion>, BootError>)
    ensures
        r is Ok <==> count <= IRQ_END - VIRTIO_IRQ_BASE,
        r matches Ok(v) ==> v@ == Seq::new(count as nat, |i: int| region_of(i)),
        r matches Err(e) ==> e == (BootError::TooManyVirtioDevicesForGicSpis { count }),
{
    if count > (IRQ_END - VIRTIO_IRQ_BASE) as usize {
        return Err(BootError::TooManyVirtioDevicesForGicSpis { count });
    }
    let mut regions: Vec<VirtioRegion> = Vec::new();
    let mut i: usize = 0;
    while i < count
        invariant
            i <= count <= IRQ_END - VIRTIO_IRQ_BASE,
            regions@ =~= Seq::new(i as nat, |i: int| region_of(i)),
        decreases count - i,
    {
        regions.push(
            VirtioRegion {
                address: VIRTIO_BASE + i as u64 * VIRTIO_STRIDE,
                irq: VIRTIO_IRQ_BASE + i as u32,
            },
        );
        i = i + 1;
    }
    Ok(regions)
}

/// Device regions do not overlap each other nor the interrupt controller, and
/// every device has an interrupt of its own.
pub proof fn device_regions_are_apart(i: int, j: int)
    requires
        0 <= i < j < IRQ_END - VIRTIO_IRQ_BASE,
    ensures
        region_of(i).address + VIRTIO_STRIDE <= region_of(j).address,
        region_of(j).address + VIRTIO_STRIDE <= GIC_REDIST,
        region_of(i).irq < region_of(j).irq < IRQ_END,
        UART_IRQ < region_of(i).irq,
        UART + 0x1000 <= region_of(i).address,
{
}

/// Why a guest cannot be placed in memory.
pub open spec fn load_error(l: Layout, loaded: Result<u64, Failure>, dtb_len: int) -> Option<
    BootError,
> {
    if dtb_len > DTB_SPACE {
        Some(BootError::FdtExceedsReservedSpace { length: dtb_len as usize })
    } else {
        match loaded {
            Err(e) => Some(BootError::Loader(e)),
            Ok(entry) => if entry != l.entry {
                Some(BootError::LoaderLayoutDisagreement)
            } else {
                None
            },
        }
    }
}

/// Why a tree is not taken, if so.
pub open spec fn dtb_checked(length: usize) -> Result<(), BootError> {
    if length > DTB_SPACE {
        Err(BootError::FdtExceedsReservedSpace { length })
    } else {
        Ok(())
    }
}

/// Refuses a device tree that is larger than the space kept for it.
pub fn check_dtb(length: usize) -> (r: Result<(), BootError>)
    ensures
        r == dtb_checked(length),
{
    if length as u64 > DTB_SPACE {
        return Err(BootError::FdtExceedsReservedSpace { length });
    }
    Ok(())
}

/// What completing a guest does to its memory.
pub open spec fn load_rel(
    l: Layout,
    loaded: Result<u64, Failure>,
    initrd: Seq<u8>,
    dtb: Seq<u8>,
    m0: Memory,
    m1: Memory,
    r: Result<(), BootError>,
) -> bool {
    match load_error(l, loaded, dtb.len() as int) {
        Some(e) => r == Err::<(), BootError>(e) && m1 == m0,
        None => if !covers(m0.regions, l.initrd as int, initrd.len() as int) {
            r == Err::<(), BootError>(BootError::GuestAccess) && m1 == m0
        } else {
            let first = m0.after(Access::Write { addr: l.initrd, data: initrd });
            if !covers(m0.regions, l.dtb as int, dtb.len() as int) {
                r == Err::<(), BootError>(BootError::GuestAccess) && m1 == first
            } else {
                r == Ok::<(), BootError>(()) && m1 == first.after(
                    Access::Write { addr: l.dtb, data: dtb },
                )
            }
        },
    }
}

/// Completes a guest whose kernel the loader put at `loaded`: the initial
/// ramdisk and the device tree are written where the layout has them.
pub fn load(
    mem: &mut Guest,
    l: &Layout,
    loaded: Result<u64, Failure>,
    initrd: &[u8],
    dtb: &[u8],
) -> (r: Result<(), BootError>)
    ensures
        final(mem)@.same(old(mem)@),
        load_rel(*l, loaded, initrd@, dtb@, old(mem)@, final(mem)@, r),
{
    match check_dtb(dtb.len()) {
        Err(e) => {
            return Err(e);
        },
        Ok(_) => {},
    }
    match loaded {
        Err(e) => {
            return Err(BootError::Loader(e));
        },
        Ok(entry) => {
            if entry != l.entry {
                return Err(BootError::LoaderLayoutDisagreement);
            }
        },
    }
    if !mem.check_range(l.initrd, initrd.len()) {
        return Err(BootError::GuestAccess);
    }
    mem.write(l.initrd, initrd);
    if !mem.check_range(l.dtb, dtb.len()) {
        return Err(BootError::GuestAccess);
    }
    mem.write(l.dtb, dtb);
    Ok(())
}

} // verus!

//! Boot layout, device tree and address limits.
use w_vmm::boot::{
    check_dtb, fdt, load, mib_bytes, validate_ipa_range, virtio_regions, Layout, DTB_SPACE,
    GIC_REDIST, RAM, VIRTIO_BASE, VIRTIO_IRQ_BASE, VIRTIO_STRIDE,
};
use w_vmm::error::{BootError, Failure};
use w_vmm::guest::{Guest, Ram};
use w_vmm::memory::MIB;

const INITRD_LEN: usize = 3 << 20;

/// The header of an ARM64 image of 8 MiB that is loaded at the start of memory.
fn kernel() -> Vec<u8> {
    let mut image = vec![0u8; 4096];
    image[16..24].copy_from_slice(&(8u64 << 20).to_le_bytes());
    image[24] = 0x0a;
    image[56..60].copy_from_slice(b"ARM\x64");
    image
}

fn count(dtb: &[u8], text: &str) -> usize {
    dtb.windows(text.len()).filter(|w| *w == text.as_bytes()).count()
}

#[test]
fn layout_and_dtb() {
    let l = Layout::new(512, &kernel(), INITRD_LEN).unwrap();
    assert!(l.entry < l.initrd && l.initrd < l.dtb);
    let dtb = fdt(&l, INITRD_LEN, &virtio_regions(1).unwrap(), 0x20000, [30, 27], 1, false).unwrap();
    assert_eq!(&dtb[..4], &0xd00dfeedu32.to_be_bytes());
    assert!(count(&dtb, "virtio,mmio\0") > 0);
}

#[test]
fn cpu_topology_and_base_only_memory() {
    let l = Layout::new(512, &kernel(), INITRD_LEN).unwrap();
    let dtb = fdt(&l, INITRD_LEN, &virtio_regions(1).unwrap(), 0x80000, [30, 27], 4, true).unwrap();
    for id in 0..4 {
        let name = format!("cpu@{id:x}\0");
        assert!(count(&dtb, &name) > 0);
    }
    assert_eq!(count(&dtb, "memory@"), 1);
    assert!(count(&dtb, "auto-movable") > 0);
    assert!(fdt(&l, INITRD_LEN, &[], 0x80000, [30, 27], 0, false).is_err());
}

#[test]
fn large_ram_and_ipa_boundaries() {
    assert_eq!(Layout::new(32768, &kernel(), INITRD_LEN).unwrap().size, 32768 * MIB as usize);
    for mib in [u64::MAX, u64::MAX / MIB + 1, u64::MAX / MIB] {
        assert!(Layout::new(mib, &kernel(), 0).is_err());
    }
    let limit = 1u64 << 36;
    validate_ipa_range(RAM, limit - RAM, 36).unwrap();
    assert!(validate_ipa_range(RAM, limit - RAM + 1, 36).is_err());
    assert!(validate_ipa_range(u64::MAX, 1, 64).is_err());
    for bits in [0, 65] {
        assert!(validate_ipa_range(RAM, MIB, bits).is_err());
    }
    validate_ipa_range(RAM, MIB, 64).unwrap();
}

#[test]
fn rejects_layout_overflow() {
    assert!(Layout::new(64, &kernel(), INITRD_LEN).is_err());
    assert!(Layout::new(128, &kernel(), usize::MAX).is_err());
    let mut k = kernel()[..64].to_vec();
    k[16..24].copy_from_slice(&u64::MAX.to_le_bytes());
    assert!(Layout::new(512, &k, 0).is_err());
}

#[test]
fn multiple_device_regions_and_fdt() {
    let layout = Layout::new(512, &kernel(), INITRD_LEN).unwrap();
    for n in [0, 1, 2, 3] {
        let regions = virtio_regions(n).unwrap();
        let dtb = fdt(&layout, INITRD_LEN, &regions, 0x20000, [30, 27], 1, false).unwrap();
        assert_eq!(count(&dtb, "virtio_mmio@"), n);
        for (i, region) in regions.iter().enumerate() {
            assert_eq!(region.address, VIRTIO_BASE + i as u64 * VIRTIO_STRIDE);
            assert_eq!(region.irq, VIRTIO_IRQ_BASE + i as u32);
            assert!(region.address + VIRTIO_STRIDE <= GIC_REDIST);
            let node = format!("virtio_mmio@{:x}\0", region.address);
            assert!(count(&dtb, &node) > 0);
        }
    }
    assert!(virtio_regions(usize::MAX).is_err());
}

#[test]
fn layout_places_every_part() {
    let l = Layout::new(512, &kernel(), INITRD_LEN).unwrap();
    assert_eq!(l.entry, RAM);
    assert_eq!(l.dtb, RAM + 512 * MIB - DTB_SPACE);
    assert_eq!(l.initrd, l.dtb - INITRD_LEN as u64);
    assert_eq!(l.size, 512 << 20);
    let odd = Layout::new(512, &kernel(), INITRD_LEN + 1).unwrap();
    assert_eq!(odd.initrd, l.initrd - 0x10000);
}

#[test]
fn layout_errors_name_their_cause() {
    let k = kernel();
    assert!(matches!(
        Layout::new(127, &k, 0),
        Err(BootError::MemoryMustBeAtLeast128Mib { mib: 127 })
    ));
    assert!(matches!(Layout::new(512, &k[..63], 0), Err(BootError::InvalidArm64Image)));
    let mut bad = k.clone();
    bad[56] = 0;
    assert!(matches!(Layout::new(512, &bad, 0), Err(BootError::InvalidArm64Image)));
    let mut bad = k.clone();
    bad[16..24].copy_from_slice(&0u64.to_le_bytes());
    assert!(matches!(
        Layout::new(512, &bad, 0),
        Err(BootError::LegacyImageWithoutImageSizeIsUnsupported)
    ));
    let mut bad = k.clone();
    bad[24] = 1;
    assert!(matches!(Layout::new(512, &bad, 0), Err(BootError::BigEndianKernelUnsupported)));
    let mut bad = k.clone();
    bad[8] = 1;
    assert!(matches!(
        Layout::new(512, &bad, 0),
        Err(BootError::UnalignedKernelTextOffset { offset: 1 })
    ));
    let mut bad = k.clone();
    bad[8..16].copy_from_slice(&(u64::MAX - 0xfff).to_le_bytes());
    assert!(matches!(Layout::new(512, &bad, 0), Err(BootError::KernelOffsetOverflow { .. })));
    let mut bad = k.clone();
    bad[16..24].copy_from_slice(&u64::MAX.to_le_bytes());
    assert!(matches!(Layout::new(512, &bad, 0), Err(BootError::ImageSizeOverflow)));
    let mut bad = k.clone();
    bad[16..24].copy_from_slice(&(512u64 << 20).to_le_bytes());
    assert!(matches!(
        Layout::new(512, &bad, 0),
        Err(BootError::KernelInitramfsFdtOverlapOrExceedRam)
    ));
    assert!(matches!(
        Layout::new(128, &k, usize::MAX),
        Err(BootError::InitrdTooLarge { length: usize::MAX })
    ));
    assert!(matches!(
        Layout::new(u64::MAX, &k, 0),
        Err(BootError::MemoryCapacityConversionOverflow { mib: u64::MAX })
    ));
    assert!(matches!(
        Layout::new(u64::MAX / MIB, &k, 0),
        Err(BootError::RamExceedsHostAllocationSize { .. })
    ));
}

#[test]
fn ranges_and_sizes_report_their_limits() {
    assert_eq!(mib_bytes(3).unwrap(), 3 << 20);
    assert!(matches!(
        mib_bytes(u64::MAX),
        Err(BootError::MemoryCapacityConversionOverflow { mib: u64::MAX })
    ));
    assert!(matches!(
        validate_ipa_range(1, 0x10, 4),
        Err(BootError::IpaRange { start: 1, end: 0x11, bits: 4 })
    ));
    assert!(matches!(
        validate_ipa_range(u64::MAX, 1, 64),
        Err(BootError::MemoryAddressOverflow { start: u64::MAX, size: 1 })
    ));
    assert!(matches!(
        validate_ipa_range(0, 1, 65),
        Err(BootError::InvalidIpaWidth { bits: 65 })
    ));
    assert!(matches!(
        virtio_regions(987),
        Err(BootError::TooManyVirtioDevicesForGicSpis { count: 987 })
    ));
    assert_eq!(virtio_regions(986).unwrap().len(), 986);
}

#[test]
fn device_tree_is_well_formed_and_bounded() {
    let l = Layout::new(512, &kernel(), INITRD_LEN).unwrap();
    let devices = virtio_regions(986).unwrap();
    let dtb = fdt(&l, INITRD_LEN, &devices, 0x20000, [30, 27], 512, true).unwrap();
    let size = u32::from_be_bytes([dtb[4], dtb[5], dtb[6], dtb[7]]) as usize;
    assert_eq!(size, dtb.len());
    assert!(dtb.len() as u64 <= DTB_SPACE);
    assert_eq!(count(&dtb, "virtio_mmio@"), 986);
    assert_eq!(count(&dtb, "cpu@"), 512);
    // memory@40000000 with its base and size
    assert_eq!(count(&dtb, "memory@40000000\0"), 1);
    let reg: Vec<u8> = RAM
        .to_be_bytes()
        .into_iter()
        .chain((512u64 << 20).to_be_bytes())
        .collect();
    assert!(dtb.windows(16).any(|w| w == reg));
    check_dtb(DTB_SPACE as usize).unwrap();
    assert!(matches!(
        check_dtb(DTB_SPACE as usize + 1),
        Err(BootError::FdtExceedsReservedSpace { .. })
    ));
    assert!(matches!(
        fdt(&l, INITRD_LEN, &[], 0x20000, [30, 27], 0, false),
        Err(BootError::AtLeastOneCpuRequired)
    ));
}

#[test]
fn loading_places_initrd_and_tree() {
    let l = Layout::new(128, &kernel(), 5).unwrap();
    let mut mem = Guest::new(vec![Ram::new(RAM, l.size).unwrap()]).unwrap().1;
    load(&mut mem, &l, Ok(l.entry), b"hello", b"tree").unwrap();
    assert_eq!(mem.peek(l.initrd, 5).unwrap(), b"hello");
    assert_eq!(mem.peek(l.dtb, 4).unwrap(), b"tree");
    assert!(matches!(
        load(&mut mem, &l, Ok(l.entry + 4096), b"", b""),
        Err(BootError::LoaderLayoutDisagreement)
    ));
    let broken = Failure { chain: vec!["no image".to_owned()] };
    assert!(load(&mut mem, &l, Err(broken), b"", b"").is_err());
}

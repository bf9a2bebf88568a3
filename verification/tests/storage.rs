//! Image headers, bounds and the batching of transfers.
use w_vmm::disk::{Disk, FlushStep, Found, OpenStep, Opening, Progress};
use w_vmm::error::{Failure, StorageError};
use w_vmm::guest::Segment;
use w_vmm::storage::{bounds, transfer_plan, validate_header, vector_limit};

fn header() -> [u8; 104] {
    let mut h = [0; 104];
    h[..4].copy_from_slice(b"QFI\xfb");
    h[7] = 3;
    h[23] = 16;
    h[30] = 2;
    h[103] = 104;
    h
}

#[test]
fn disk_bounds() {
    assert!(matches!(
        bounds(4096, 4090, 7),
        Err(StorageError::OutOfBounds { size: 4096, offset: 4090, len: 7 })
    ));
    assert!(matches!(
        bounds(4096, u64::MAX, 1),
        Err(StorageError::OutOfBounds { offset: u64::MAX, .. })
    ));
    assert!(bounds(4096, 0, 4096).is_ok());
}

#[test]
fn unsupported_headers() {
    let h = header();
    assert_eq!(validate_header(&h).unwrap(), 512);
    for p in [8, 16, 32, 60, 64, 72] {
        let mut bad = h;
        bad[p] = 1;
        assert!(validate_header(&bad).is_err(), "field {p}");
    }
    assert!(matches!(validate_header(&h[..72]), Err(StorageError::InvalidHeader)));
}

#[test]
fn header_errors_name_the_field() {
    let with = |at: usize, value: u8| {
        let mut h = header();
        h[at] = value;
        validate_header(&h)
    };
    assert!(matches!(with(0, 0), Err(StorageError::InvalidHeader)));
    assert!(matches!(with(7, 4), Err(StorageError::UnsupportedVersion { version: 4 })));
    assert!(matches!(with(15, 1), Err(StorageError::BackingChainsUnsupported)));
    assert!(matches!(with(19, 1), Err(StorageError::BackingChainsUnsupported)));
    assert!(matches!(with(23, 8), Err(StorageError::InvalidQcow2ClusterSize { bits: 8 })));
    assert!(matches!(with(23, 22), Err(StorageError::InvalidQcow2ClusterSize { bits: 22 })));
    assert!(matches!(with(35, 1), Err(StorageError::EncryptedImagesUnsupported)));
    assert!(matches!(with(63, 1), Err(StorageError::InternalSnapshotsUnsupported)));
    assert!(matches!(with(79, 1), Err(StorageError::IncompatibleFeatures { features: 1 })));
    assert!(matches!(with(103, 103), Err(StorageError::InvalidHeaderLength { length: 103 })));
    assert!(matches!(with(30, 0), Err(StorageError::InvalidCapacity { size: 0 })));
    assert!(matches!(with(31, 1), Err(StorageError::InvalidCapacity { size: 513 })));
    // Version 2 has neither feature bits nor a header length.
    let mut old = header();
    old[7] = 2;
    old[79] = 1;
    old[103] = 0;
    assert_eq!(validate_header(&old).unwrap(), 512);
}

#[test]
fn images_are_checked_before_use() {
    let steps = [
        (OpenStep::File, Found::Done),
        (OpenStep::Metadata, Found::Regular(true)),
        (OpenStep::Lock { exclusive: true }, Found::Done),
        (OpenStep::Header, Found::Bytes(header().to_vec())),
        (OpenStep::Duplicate, Found::Done),
        (OpenStep::Create, Found::Done),
    ];
    let mut opening = Opening::new("a.qcow2".to_owned(), false);
    for (step, found) in steps {
        assert_eq!(opening.step(), step);
        let Ok(Progress::Step(next)) = opening.advance(found) else { panic!("no next step") };
        opening = next;
    }
    assert_eq!(opening.step(), OpenStep::Image);
    let Ok(Progress::Ready(disk)) = opening.advance(Found::Size(512)) else { panic!("refused") };
    assert_eq!((disk.size(), disk.read_only()), (512, false));
    assert_eq!(disk.flush(), [FlushStep::Cache, FlushStep::Image, FlushStep::File]);
    let names: Vec<&str> = disk.flush().iter().map(|s| s.operation()).collect();
    assert_eq!(names, ["qcow2 cache flush", "qcow2 host sync", "disk fsync"]);
}

/// An image that is opened up to `step`.
fn opening(step: OpenStep, readonly: bool) -> Opening {
    let mut opening = Opening::new("a.qcow2".to_owned(), readonly);
    while opening.step() != step {
        let found = match opening.step() {
            OpenStep::Metadata => Found::Regular(true),
            OpenStep::Header => Found::Bytes(header().to_vec()),
            _ => Found::Done,
        };
        let Ok(Progress::Step(next)) = opening.advance(found) else { panic!("no such step") };
        opening = next;
    }
    opening
}

fn disk(readonly: bool) -> Disk {
    match opening(OpenStep::Image, readonly).advance(Found::Size(512)) {
        Ok(Progress::Ready(disk)) => disk,
        _ => panic!("refused"),
    }
}

#[test]
fn images_are_refused() {
    assert!(matches!(
        opening(OpenStep::Metadata, false).advance(Found::Regular(false)),
        Err(StorageError::NotRegularFile)
    ));
    let mut bad = header();
    bad[7] = 4;
    assert!(matches!(
        opening(OpenStep::Header, false).advance(Found::Bytes(bad.to_vec())),
        Err(StorageError::UnsupportedVersion { version: 4 })
    ));
    assert!(matches!(
        opening(OpenStep::Image, false).advance(Found::Size(1024)),
        Err(StorageError::CapacityMismatch { expected: 512, actual: 1024 })
    ));
    let names = [
        (OpenStep::File, "open"),
        (OpenStep::Metadata, "metadata"),
        (OpenStep::Lock { exclusive: false }, "disk is already locked"),
        (OpenStep::Header, "read qcow2 header"),
        (OpenStep::Duplicate, "duplicate disk descriptor"),
        (OpenStep::Create, "create image file"),
        (OpenStep::Image, "open qcow2 metadata"),
    ];
    for (step, name) in names {
        let source = Failure { chain: vec!["host".to_owned()] };
        let Err(StorageError::Operation { operation, path, source }) =
            opening(step, true).advance(Found::Failed(source))
        else {
            panic!("no failure")
        };
        assert_eq!((operation.as_str(), path.as_str()), (name, "a.qcow2"));
        assert_eq!(source.chain, ["host"]);
    }
}

#[test]
fn disks_plan_their_requests() {
    let data = [segment(0, 256), segment(0x1000, 256)];
    assert_eq!(disk(false).read(0, &data, 16).unwrap().len(), 1);
    assert_eq!(disk(false).write(0, &data, 1).unwrap().len(), 2);
    assert_eq!(disk(true).read(0, &data, 1).unwrap().len(), 2);
    assert!(matches!(disk(true).write(0, &data, 16), Err(StorageError::ReadOnly)));
    assert!(disk(true).flush().is_empty());
    for plan in [disk(false).read(1, &data, 16), disk(false).write(1, &data, 16)] {
        assert!(matches!(
            plan,
            Err(StorageError::OutOfBounds { size: 512, offset: 1, len: 512 })
        ));
    }
    let huge = [segment(0, usize::MAX), segment(0, 1)];
    let Err(StorageError::Operation { operation, path, source }) = disk(false).write(0, &huge, 16)
    else {
        panic!("no overflow")
    };
    assert_eq!((operation.as_str(), path.as_str()), ("qcow2 write", "a.qcow2"));
    assert_eq!(source.chain, ["disk request length overflow"]);
    assert!(matches!(
        disk(true).read(0, &huge, 16),
        Err(StorageError::Operation { operation, .. }) if operation == "qcow2 read"
    ));
    assert_eq!(vector_limit(1024), 1024);
    assert_eq!((vector_limit(0), vector_limit(-1)), (16, 16));
}

fn segment(addr: u64, len: usize) -> Segment {
    Segment { addr, len }
}

#[test]
fn transfers_are_split_into_batches() {
    let data = [segment(0, 512), segment(0x1000, 0), segment(0x2000, 512), segment(0x3000, 512)];
    let plan = transfer_plan(4096, 512, &data, false, 2).unwrap().unwrap();
    assert_eq!(plan.len(), 2);
    assert_eq!(plan[0].offset, 512);
    assert_eq!(plan[0].segments, [data[0], data[2]]);
    assert_eq!(plan[1].offset, 1536);
    assert_eq!(plan[1].segments, [data[3]]);
    // A read must not fill one byte twice within a batch; a write may read it twice.
    let twice = [segment(0, 512), segment(100, 512)];
    assert_eq!(transfer_plan(4096, 0, &twice, false, 16).unwrap().unwrap().len(), 2);
    assert_eq!(transfer_plan(4096, 0, &twice, true, 16).unwrap().unwrap().len(), 1);
    assert!(matches!(
        transfer_plan(1024, 512, &twice, false, 16),
        Some(Err(StorageError::OutOfBounds { size: 1024, offset: 512, len: 1024 }))
    ));
    let huge = [segment(0, usize::MAX), segment(0, 1)];
    assert!(transfer_plan(u64::MAX, 0, &huge, false, 16).is_none());
}

#[test]
fn images_are_locked_as_they_are_used() {
    for readonly in [true, false] {
        let Ok(Progress::Step(next)) =
            opening(OpenStep::Metadata, readonly).advance(Found::Regular(true))
        else {
            panic!("refused")
        };
        assert_eq!(next.step(), OpenStep::Lock { exclusive: !readonly });
        let busy = Failure { chain: vec!["would block".to_owned()] };
        let Err(StorageError::Operation { operation, .. }) = next.advance(Found::Failed(busy)) else {
            panic!("locked twice")
        };
        assert_eq!(operation, "disk is already locked");
        assert_eq!(disk(readonly).read_only(), readonly);
        assert_eq!(disk(readonly).size(), 512);
    }
}

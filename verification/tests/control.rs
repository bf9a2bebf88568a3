//! The lifecycle of a VM as its controllers see it.
use w_vmm::control::{Directive, Operation, VmControl, VmLifecycle};
use w_vmm::error::{ControlError, MemoryError};
use w_vmm::memory::{MemoryControl, MemoryLifecycle};

#[test]
fn unused_cancelled_and_owner_thread() {
    fn thread_safe<T: Send + Sync>() {}
    thread_safe::<VmControl<u8>>();
    let mut c: VmControl<u8> = VmControl::new(None);
    assert!(c.pause(0, 1).is_err());
    assert!(c.resume(0, 1).is_err());
    c.stop(1).unwrap();
    assert!(matches!(c.stopped(), Some(Ok(()))));
    c.stop(1).unwrap();
    assert!(matches!(c.stopped(), Some(Ok(()))));
    assert!(c.begin(2).is_err());
    c.dropped(None);
    assert_eq!(c.status().lifecycle, VmLifecycle::Stopped);
    let mut c: VmControl<u8> = VmControl::new(None);
    c.dropped(None);
    assert_eq!(c.status().lifecycle, VmLifecycle::Stopped);
    let mut c: VmControl<u8> = VmControl::new(None);
    c.begin(2).unwrap();
    c.running();
    for r in [c.pause(0, 2), c.resume(0, 2), c.stop(2).map(|_| ())] {
        assert!(matches!(r, Err(ControlError::OwnerThread)));
    }
}

#[test]
fn paused_wait_ignores_spurious_notifications_and_keeps_queued_wakes() {
    let mut c: VmControl<u8> = VmControl::new(None);
    c.begin(2).unwrap();
    c.running();
    c.complete(Operation::Pause, true);
    assert!(c.asleep());
    assert!(matches!(c.next(), Directive::Sleep));
    c.resume(9, 1).unwrap();
    // The queued request itself prevents sleeping, even with the VM still paused.
    assert!(!c.asleep());
    match c.next() {
        Directive::Serve(request) => {
            assert_eq!(request.operation, Operation::Resume);
            assert_eq!(request.reply, 9);
        }
        _ => panic!("no request"),
    }
    assert!(c.asleep());
    c.stop(1).unwrap();
    assert!(!c.asleep());
    assert!(matches!(c.next(), Directive::Stop));
}

#[test]
fn stop_cancels_queue_and_waits_for_saved_cleanup_result() {
    let mut c: VmControl<u8> = VmControl::new(None);
    c.begin(2).unwrap();
    c.running();
    c.pause(7, 1).unwrap();
    let cancelled = c.stop(1).unwrap();
    assert_eq!(cancelled.len(), 1);
    assert_eq!(cancelled[0].reply, 7);
    for _ in 0..3 {
        assert!(c.stop(1).unwrap().is_empty());
    }
    assert!(c.stopping());
    assert!(c.stopped().is_none());
    assert!(matches!(c.next(), Directive::Stop));
    c.cleanup_result(Some("flush failed".to_owned()));
    assert!(c.stopped().is_none());
    c.finish(Some("flush failed".to_owned()));
    for _ in 0..4 {
        assert!(matches!(
            c.stopped(),
            Some(Err(ControlError::CleanupFailed { message })) if message == "flush failed"
        ));
    }
    assert_eq!(c.status().final_error.as_deref(), Some("flush failed"));
}

#[test]
fn operations_need_a_running_machine() {
    let mut c: VmControl<u8> = VmControl::new(None);
    c.begin(2).unwrap();
    assert!(matches!(c.pause(0, 1), Err(ControlError::NotRunning)));
    assert!(matches!(c.begin(3), Err(ControlError::Cancelled)));
    c.running();
    assert!(matches!(c.next(), Directive::Work));
    c.pause(1, 1).unwrap();
    c.resume(2, 1).unwrap();
    assert!(matches!(c.next(), Directive::Serve(r) if r.operation == Operation::Pause && r.reply == 1));
    c.complete(Operation::Pause, true);
    assert_eq!(c.status().lifecycle, VmLifecycle::Paused);
    assert!(matches!(c.next(), Directive::Serve(r) if r.operation == Operation::Resume));
    c.complete(Operation::Resume, false);
    assert_eq!(c.status().lifecycle, VmLifecycle::Paused);
    c.stop(1).unwrap();
    c.complete(Operation::Resume, true);
    assert_eq!(c.status().lifecycle, VmLifecycle::Stopping);
    assert!(c.cleaning().is_empty());
    c.cleanup_result(None);
    c.finish(None);
    assert_eq!(c.status().lifecycle, VmLifecycle::Stopped);
    assert!(matches!(c.pause(0, 1), Err(ControlError::NotRunning)));
}

#[test]
fn a_panic_is_the_final_error() {
    let mut c: VmControl<u8> = VmControl::new(Some(MemoryControl::new(128, 2)));
    c.begin(2).unwrap();
    c.running();
    c.pause(4, 1).unwrap();
    let waiting = c.dropped(Some("VMM thread panicked".to_owned()));
    assert_eq!(waiting.len(), 1);
    assert_eq!(c.status().lifecycle, VmLifecycle::Stopped);
    assert_eq!(c.status().final_error.as_deref(), Some("VMM thread panicked"));
    assert_eq!(c.memory_status().unwrap().lifecycle, MemoryLifecycle::Stopped);
    assert!(matches!(c.stopped(), Some(Err(ControlError::CleanupFailed { .. }))));
}

#[test]
fn memory_targets_follow_the_lifecycle() {
    let mut c: VmControl<u8> = VmControl::new(None);
    assert!(!c.supports_memory());
    assert!(matches!(c.memory_status(), Err(ControlError::MemoryNotConfigured)));
    assert!(matches!(c.set_requested_mib(0), Err(ControlError::MemoryNotConfigured)));
    let mut c: VmControl<u8> = VmControl::new(Some(MemoryControl::new(128, 2)));
    assert!(c.supports_memory());
    c.set_requested_mib(6).unwrap();
    assert!(matches!(
        c.set_requested_mib(3),
        Err(ControlError::Memory(MemoryError::InvalidTarget { requested: 3, .. }))
    ));
    assert_eq!(c.memory_status().unwrap().requested_size_mib, 6);
    let m = c.lend();
    assert_eq!(m.as_ref().unwrap().status(), c.memory_status().unwrap());
    c.settle(m);
    assert_eq!(c.memory_status().unwrap().requested_size_mib, 6);
    c.stop(1).unwrap();
    assert_eq!(c.memory_status().unwrap().lifecycle, MemoryLifecycle::Stopped);
    assert!(matches!(c.set_requested_mib(0), Err(ControlError::Memory(MemoryError::Stopped))));
    assert_eq!(c.memory_status().unwrap().requested_size_mib, 6);
}

#[test]
fn a_target_that_is_accepted_while_the_state_is_lent_stays() {
    let mut c: VmControl<u8> = VmControl::new(Some(MemoryControl::new(128, 2)));
    c.begin(2).unwrap();
    let mut m = c.lend().unwrap();
    m.set_plugged_mib(4);
    m.set_driver_ready(true);
    m.start();
    c.set_requested_mib(8).unwrap();
    assert_eq!(c.memory_status().unwrap().plugged_size_mib, 0);
    c.settle(Some(m));
    let status = c.memory_status().unwrap();
    assert_eq!((status.requested_size_mib, status.plugged_size_mib), (8, 4));
    assert!(status.driver_ready);
    assert_eq!(status.lifecycle, MemoryLifecycle::Running);
}

#[test]
fn every_stop_gets_the_same_result() {
    for message in [None, Some("unmap failed")] {
        let mut c: VmControl<u8> = VmControl::new(None);
        c.begin(2).unwrap();
        c.stop(1).unwrap();
        assert!(c.stopped().is_none());
        c.cleaning();
        c.cleanup_result(message.map(str::to_owned));
        c.finish(None);
        for _ in 0..3 {
            assert!(c.stop(1).unwrap().is_empty());
            match (message, c.stopped()) {
                (None, Some(Ok(()))) => {}
                (Some(text), Some(Err(ControlError::CleanupFailed { message }))) => {
                    assert_eq!(message, text);
                }
                _ => panic!("another result"),
            }
        }
    }
}

#[test]
fn the_target_is_the_last_one_that_was_accepted() {
    let mut m = MemoryControl::new(128, 2);
    assert_eq!(m.status().requested_size_mib, 0);
    assert!(m.set_requested_mib(129).is_err());
    assert_eq!(m.status().requested_size_mib, 0);
    m.set_requested_mib(64).unwrap();
    m.start();
    assert!(m.set_requested_mib(3).is_err());
    m.set_requested_mib(32).unwrap();
    m.stop();
    assert!(m.set_requested_mib(16).is_err());
    let status = m.status();
    assert_eq!(status.requested_size_mib, 32);
    assert_eq!((status.region_size_mib, status.block_size_mib, status.plugged_size_mib), (128, 2, 0));
}

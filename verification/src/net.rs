//! Host network backends, independent of the virtio transport.
use crate::error::NetError;
use crate::guest::{handled, Guest, Segment};
use vstd::prelude::*;

verus! {

/// One request that a network backend was handed, and its outcome.
#[allow(inconsistent_fields)]
pub enum NetCall {
    /// A frame that lies in guest memory was to be sent.
    Send { frame: Seq<Segment>, result: Result<bool, NetError> },
    /// A frame kept by the device was to be sent.
    Resend { frame: Seq<u8>, result: Result<bool, NetError> },
    /// A frame was to be received into guest memory.
    Recv { buffer: Seq<Segment>, result: Result<Option<usize>, NetError> },
    /// A frame of at most `capacity` bytes was to be received.
    Fetch { capacity: usize, result: Result<Option<Vec<u8>>, NetError> },
}

/// Nonblocking, complete Ethernet frames, excluding FCS and virtio headers.
/// Access is synchronous: implementations must not retain guest memory, and
/// access nothing of it but the segments they are handed.
/// All methods are called on the VMM thread; implementations need not be Send.
///
/// Only proofs look at the ghost functions: an implementation that stands
/// outside them may leave them out.
pub trait NetDevice {
    const MTU: u16;

    /// The requests so far, the latest last.
    open spec fn calls(&self) -> Seq<NetCall> {
        arbitrary()
    }

    /// What `mac_address` reports.
    open spec fn mac(&self) -> [u8; 6] {
        arbitrary()
    }

    /// What `max_frame_len` reports.
    open spec fn frame_limit(&self) -> usize {
        arbitrary()
    }

    fn mac_address(&self) -> (r: [u8; 6])
        ensures
            r == self.mac(),
    ;

    /// Maximum complete frame length; receive buffers are at least this large.
    fn max_frame_len(&self) -> (r: usize)
        ensures
            r == self.frame_limit(),
    ;

    /// True accepts the whole frame; false accepts nothing and asks for a retry.
    fn send(&mut self, frame: &[Segment], mem: &mut Guest) -> (r: Result<bool, NetError>)
        ensures
            final(self).calls() == old(self).calls().push(
                NetCall::Send { frame: frame@, result: r },
            ),
            handled(old(mem)@, final(mem)@, frame@, false),
    ;

    /// As `send`, for a frame that was refused before and has been kept.
    fn resend(&mut self, frame: &[u8]) -> (r: Result<bool, NetError>)
        ensures
            final(self).calls() == old(self).calls().push(
                NetCall::Resend { frame: frame@, result: r },
            ),
    ;

    /// Receives a frame into guest memory and tells its length. `None` means
    /// that there is no packet, and must leave the buffer unchanged. Packets
    /// must never be truncated.
    fn recv(&mut self, buffer: &[Segment], mem: &mut Guest) -> (r: Result<
        Option<usize>,
        NetError,
    >)
        ensures
            final(self).calls() == old(self).calls().push(
                NetCall::Recv { buffer: buffer@, result: r },
            ),
            handled(old(mem)@, final(mem)@, buffer@, true),
            r == Ok::<Option<usize>, NetError>(None) ==> final(mem)@ == old(mem)@,
    ;

    /// As `recv`, for a frame of at most `capacity` bytes that is handed over.
    fn fetch(&mut self, capacity: usize) -> (r: Result<Option<Vec<u8>>, NetError>)
        ensures
            final(self).calls() == old(self).calls().push(NetCall::Fetch { capacity, result: r }),
    ;
}

impl<T: NetDevice> NetDevice for Box<T> {
    const MTU: u16 = T::MTU;

    open spec fn calls(&self) -> Seq<NetCall> {
        (**self).calls()
    }

    open spec fn mac(&self) -> [u8; 6] {
        (**self).mac()
    }

    open spec fn frame_limit(&self) -> usize {
        (**self).frame_limit()
    }

    fn mac_address(&self) -> (r: [u8; 6]) {
        (**self).mac_address()
    }

    fn max_frame_len(&self) -> (r: usize) {
        (**self).max_frame_len()
    }

    fn send(&mut self, frame: &[Segment], mem: &mut Guest) -> (r: Result<bool, NetError>) {
        (**self).send(frame, mem)
    }

    fn resend(&mut self, frame: &[u8]) -> (r: Result<bool, NetError>) {
        (**self).resend(frame)
    }

    fn recv(&mut self, buffer: &[Segment], mem: &mut Guest) -> (r: Result<
        Option<usize>,
        NetError,
    >) {
        (**self).recv(buffer, mem)
    }

    fn fetch(&mut self, capacity: usize) -> (r: Result<Option<Vec<u8>>, NetError>) {
        (**self).fetch(capacity)
    }
}

} // verus!

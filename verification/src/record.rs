//! The record of what the device models did to guest memory.
//!
//! A record can be started and copied here. Only the functions that access
//! guest memory make it longer.
use vstd::prelude::*;

verus! {

/// One access to guest memory by the device models, and its outcome.
#[allow(inconsistent_fields)]
pub enum Access {
    /// `data` was read from `addr` on.
    Read { addr: u64, data: Seq<u8> },
    /// `data` was written from `addr` on.
    Write { addr: u64, data: Seq<u8> },
    /// The index of the available ring at `addr` was loaded; `None` if that
    /// failed.
    AvailIdx { addr: u64, value: Option<u16> },
    /// The head at number `index` of the available ring at `addr` was asked for;
    /// the outer `None` is a failure.
    Head { addr: u64, index: u16, value: Option<Option<u16>> },
    /// The used element `head`, `len` was stored as number `index` of the used
    /// ring at `addr`; `ok` tells whether the ring's index was stored too.
    Used { addr: u64, index: u16, head: u16, len: u32, ok: bool },
    /// The same element was to be stored, but not all of its place is mapped:
    /// at most the bytes before the first unmapped one were stored, and nothing
    /// else was.
    UsedCut { addr: u64, index: u16, head: u16, len: u32 },
}

/// Accesses in the order in which they were made.
pub struct Record {
    log: Ghost<Seq<Access>>,
}

impl View for Record {
    type V = Seq<Access>;

    closed spec fn view(&self) -> Seq<Access> {
        self.log@
    }
}

impl Record {
    /// The record of a view that was not used yet.
    pub fn new() -> (r: Record)
        ensures
            r@ == Seq::<Access>::empty(),
    {
        Record { log: Ghost(Seq::empty()) }
    }

    /// The same record, for the view that takes the place of this one.
    pub fn copy(&self) -> (r: Record)
        ensures
            r@ == self@,
    {
        Record { log: Ghost(self.log@) }
    }
}

} // verus!

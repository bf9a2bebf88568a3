//! The rules of an interactive terminal: the key that stops the VM, and who may
//! bind to the notification of it.
use crate::error::Failure;
use crate::serial::{IoFault, IoKind};
use vstd::prelude::*;

verus! {

/// Ctrl-].
pub const STOP_KEY: u8 = 0x1d;

#[derive(Debug)]
pub enum TerminalError {
    AlreadyBound,
    Io(Failure),
    Operation { operation: String, source: Failure },
}

/// The key stands at `at`, and nowhere before.
pub open spec fn first_key(input: Seq<u8>, at: int) -> bool {
    &&& 0 <= at < input.len()
    &&& input[at] == STOP_KEY
    &&& forall|k: int| 0 <= k < at ==> #[trigger] input[k] != STOP_KEY
}

/// Where the key stands that stops the VM; the guest sees only what comes before.
pub fn stop_key(input: &[u8]) -> (r: Option<usize>)
    ensures
        match r {
            Some(at) => first_key(input@, at as int),
            None => forall|k: int| 0 <= k < input@.len() ==> #[trigger] input@[k] != STOP_KEY,
        },
{
    let mut i: usize = 0;
    while i < input.len()
        invariant
            i <= input@.len(),
            forall|k: int| 0 <= k < i ==> #[trigger] input@[k] != STOP_KEY,
        decreases input@.len() - i,
    {
        if input[i] == STOP_KEY {
            return Some(i);
        }
        i = i + 1;
    }
    None
}

/// What is left of a failed notification: a full channel already holds one, and a
/// closed one was already heard.
pub fn notified(result: Result<(), IoFault>) -> (r: Result<(), IoFault>)
    ensures
        r == match result {
            Err(e) => if e.kind == IoKind::WouldBlock || e.kind == IoKind::BrokenPipe {
                Ok::<(), IoFault>(())
            } else {
                Err(e)
            },
            Ok(()) => Ok(()),
        },
{
    match result {
        Ok(()) => Ok(()),
        Err(e) => if e.kind == IoKind::WouldBlock || e.kind == IoKind::BrokenPipe {
            Ok(())
        } else {
            Err(e)
        },
    }
}

/// What a thread hears that waits to be notified.
#[derive(Clone, Copy, Debug, PartialEq, Eq, Structural)]
pub enum Notice {
    Byte,
    Closed,
    Interrupted,
    Failed,
}

/// What it does then.
#[derive(Clone, Copy, Debug, PartialEq, Eq, Structural)]
pub enum Wake {
    /// Wait on.
    Again,
    /// Leave without stopping anything.
    Leave,
    /// Stop the VM.
    Stop,
}

/// What a notice leads to.
pub open spec fn wake_of(notice: Notice, closing: bool) -> Wake {
    match notice {
        Notice::Interrupted => Wake::Again,
        Notice::Closed => Wake::Leave,
        Notice::Failed => Wake::Leave,
        Notice::Byte => if closing {
            Wake::Leave
        } else {
            Wake::Stop
        },
    }
}

/// Decides what a notice leads to; while the terminal closes nothing is stopped.
pub fn woken(notice: Notice, closing: bool) -> (r: Wake)
    ensures
        r == wake_of(notice, closing),
{
    match notice {
        Notice::Interrupted => Wake::Again,
        Notice::Closed => Wake::Leave,
        Notice::Failed => Wake::Leave,
        Notice::Byte => if closing {
            Wake::Leave
        } else {
            Wake::Stop
        },
    }
}

/// Whether a VM is bound to the notification.
#[derive(Clone, Copy, Debug, PartialEq, Eq, Structural)]
pub struct Binding {
    pub bound: bool,
}

impl Binding {
    pub fn new() -> (r: Self)
        ensures
            !r.bound,
    {
        Binding { bound: false }
    }

    /// Binds once.
    pub fn bind(&mut self) -> (r: Result<(), TerminalError>)
        ensures
            final(self).bound,
            r == if old(self).bound {
                Err::<(), TerminalError>(TerminalError::AlreadyBound)
            } else {
                Ok(())
            },
    {
        if self.bound {
            return Err(TerminalError::AlreadyBound);
        }
        self.bound = true;
        Ok(())
    }
}

} // verus!

//! The rules by which controllers steer a VM that another thread owns.
//!
//! The state is plain: whoever shares it between threads guards it, and waits
//! where a method says so.
use crate::error::ControlError;
use crate::memory::{MemoryControl, MemoryLifecycle, MemoryStatus};
use vstd::prelude::*;

verus! {

#[derive(Clone, Copy, Debug, PartialEq, Eq, Structural)]
pub enum VmLifecycle {
    Created,
    Starting,
    Running,
    Paused,
    Stopping,
    Stopped,
}

#[derive(Debug)]
pub struct VmStatus {
    pub lifecycle: VmLifecycle,
    /// Final startup, runtime or cleanup error, retained after termination.
    pub final_error: Option<String>,
}

#[derive(Clone, Copy, Debug, PartialEq, Eq, Structural)]
pub enum Operation {
    Pause,
    Resume,
}

/// An operation that waits for the run thread, and where its outcome goes.
pub struct Request<R> {
    pub operation: Operation,
    pub reply: R,
}

/// What the run thread does next.
pub enum Directive<R> {
    /// Leave the loop and clean up.
    Stop,
    /// Carry out a request, then complete it.
    Serve(Request<R>),
    /// Wait until something changes.
    Sleep,
    /// Run the devices for a turn.
    Work,
}

/// The state of a VM as its controllers see it.
pub struct VmControl<R> {
    lifecycle: VmLifecycle,
    final_error: Option<String>,
    owner: Option<u64>,
    queue: Vec<Request<R>>,
    cleanup_error: Option<String>,
    memory: Option<MemoryControl>,
}

/// The state as plain values.
#[verifier::ext_equal]
pub struct ControlView<R> {
    pub lifecycle: VmLifecycle,
    pub final_error: Option<Seq<char>>,
    /// The run thread.
    pub owner: Option<u64>,
    /// Requests that wait, the oldest first.
    pub queue: Seq<Request<R>>,
    pub cleanup_error: Option<Seq<char>>,
    pub memory: Option<MemoryStatus>,
}

/// The characters of a message.
pub open spec fn text(message: Option<String>) -> Option<Seq<char>> {
    match message {
        Some(m) => Some(m@),
        None => None,
    }
}

/// A second copy of a message.
pub fn copied(message: &Option<String>) -> (r: Option<String>)
    ensures
        text(r) == text(*message),
{
    match message {
        Some(m) => Some(m.clone()),
        None => None,
    }
}

impl<R> View for VmControl<R> {
    type V = ControlView<R>;

    closed spec fn view(&self) -> ControlView<R> {
        ControlView {
            lifecycle: self.lifecycle,
            final_error: text(self.final_error),
            owner: self.owner,
            queue: self.queue@,
            cleanup_error: text(self.cleanup_error),
            memory: match self.memory {
                Some(m) => Some(m@),
                None => None,
            },
        }
    }
}

/// Dynamic memory after the VM ended.
pub open spec fn memory_stopped(memory: Option<MemoryStatus>) -> Option<MemoryStatus> {
    match memory {
        Some(m) => Some(
            MemoryStatus { lifecycle: MemoryLifecycle::Stopped, driver_ready: false, ..m },
        ),
        None => None,
    }
}

/// A lent state as plain values.
pub open spec fn lent(memory: Option<MemoryControl>) -> Option<MemoryStatus> {
    match memory {
        Some(m) => Some(m@),
        None => None,
    }
}

/// The state of dynamic memory once the lent copy came back as `memory`.
pub open spec fn settled(
    kept: Option<MemoryStatus>,
    memory: Option<MemoryStatus>,
) -> Option<MemoryStatus> {
    match (kept, memory) {
        (Some(k), Some(m)) => Some(
            MemoryStatus { requested_size_mib: k.requested_size_mib, ..m },
        ),
        _ => kept,
    }
}

/// `memory` may come back to the state `c`: it is that of the same device, which
/// has ended where the VM has.
pub open spec fn comes_back<R>(c: ControlView<R>, memory: Option<MemoryStatus>) -> bool {
    match (c.memory, memory) {
        (Some(k), Some(m)) => {
            &&& m.wf()
            &&& m.region_size_mib == k.region_size_mib
            &&& m.block_size_mib == k.block_size_mib
            &&& c.lifecycle == VmLifecycle::Stopped ==> m.lifecycle == MemoryLifecycle::Stopped
        },
        _ => true,
    }
}

impl<R> ControlView<R> {
    /// Requests wait only while the VM runs or is paused; a VM that has not
    /// begun or has ended has no run thread; dynamic memory ends with the VM.
    pub open spec fn wf(self) -> bool {
        &&& self.queue.len() > 0 ==> self.lifecycle == VmLifecycle::Running || self.lifecycle
            == VmLifecycle::Paused
        &&& self.lifecycle == VmLifecycle::Created || self.lifecycle == VmLifecycle::Stopped
            ==> self.owner is None
        &&& self.lifecycle == VmLifecycle::Created ==> self.final_error is None
            && self.cleanup_error is None
        &&& self.memory matches Some(m) ==> m.wf()
        &&& self.lifecycle == VmLifecycle::Stopped ==> (self.memory matches Some(m) ==> m.lifecycle
            == MemoryLifecycle::Stopped)
    }

    /// A new VM.
    pub open spec fn created(memory: Option<MemoryStatus>) -> ControlView<R> {
        ControlView {
            lifecycle: VmLifecycle::Created,
            final_error: None,
            owner: None,
            queue: Seq::empty(),
            cleanup_error: None,
            memory,
        }
    }

    /// The VM after it ended with `error`.
    pub open spec fn finished(self, error: Option<Seq<char>>) -> ControlView<R> {
        ControlView {
            lifecycle: VmLifecycle::Stopped,
            final_error: error,
            owner: None,
            queue: Seq::empty(),
            memory: memory_stopped(self.memory),
            ..self
        }
    }

    /// The VM after a stop was asked for. One that never ran has ended.
    pub open spec fn told_to_stop(self) -> ControlView<R> {
        if self.lifecycle == VmLifecycle::Created {
            ControlView {
                lifecycle: VmLifecycle::Stopped,
                queue: Seq::empty(),
                memory: memory_stopped(self.memory),
                ..self
            }
        } else if self.lifecycle == VmLifecycle::Stopped {
            ControlView { queue: Seq::empty(), ..self }
        } else {
            ControlView { lifecycle: VmLifecycle::Stopping, queue: Seq::empty(), ..self }
        }
    }
}

impl<R> ControlView<R> {
    /// The state after a thread wanted to take the VM over, and its answer.
    pub open spec fn begun(self, owner: u64) -> (ControlView<R>, Result<(), ControlError>) {
        if self.lifecycle == VmLifecycle::Created {
            (
                ControlView { lifecycle: VmLifecycle::Starting, owner: Some(owner), ..self },
                Ok(()),
            )
        } else {
            (self, Err(ControlError::Cancelled))
        }
    }

    /// The state after startup.
    pub open spec fn started(self) -> ControlView<R> {
        if self.lifecycle == VmLifecycle::Starting {
            ControlView { lifecycle: VmLifecycle::Running, ..self }
        } else {
            self
        }
    }

    /// The state after an operation was carried out, or failed.
    pub open spec fn completed(self, operation: Operation, ok: bool) -> ControlView<R> {
        if ok && self.lifecycle != VmLifecycle::Stopping {
            ControlView {
                lifecycle: match operation {
                    Operation::Pause => VmLifecycle::Paused,
                    Operation::Resume => VmLifecycle::Running,
                },
                ..self
            }
        } else {
            self
        }
    }

    /// The state while the run thread cleans up.
    pub open spec fn tidying(self) -> ControlView<R> {
        ControlView { lifecycle: VmLifecycle::Stopping, queue: Seq::empty(), ..self }
    }

    /// The state once cleaning up led to `error`, or to none.
    pub open spec fn tidied(self, error: Option<Seq<char>>) -> ControlView<R> {
        ControlView { cleanup_error: error, ..self }
    }

    /// The state after the owner of the devices has gone, or has panicked.
    pub open spec fn left(self, panicked: Option<Seq<char>>) -> ControlView<R> {
        if self.lifecycle == VmLifecycle::Stopped {
            self
        } else {
            match panicked {
                None => self.finished(None),
                Some(m) => self.tidied(Some(m)).finished(Some(m)),
            }
        }
    }
}

/// The result of a stop as plain values: why cleaning up failed, if it did.
pub open spec fn stop_result(r: Option<Result<(), ControlError>>) -> Option<Option<Seq<char>>> {
    match r {
        None => None,
        Some(Ok(_)) => Some(None),
        Some(Err(ControlError::CleanupFailed { message })) => Some(Some(message@)),
        Some(Err(_)) => None,
    }
}

impl<R> ControlView<R> {
    /// The saved result of cleaning up, once the VM has stopped.
    pub open spec fn saved(self) -> Option<Option<Seq<char>>> {
        if self.lifecycle == VmLifecycle::Stopped {
            Some(self.cleanup_error)
        } else {
            None
        }
    }

    /// The VM after `n` stops were asked for.
    pub open spec fn told_often(self, n: nat) -> ControlView<R>
        decreases n,
    {
        if n == 0 {
            self
        } else {
            self.told_often((n - 1) as nat).told_to_stop()
        }
    }
}

/// However often a stop is asked for, each gets the same saved result.
pub proof fn repeated_stops_agree<R>(c: ControlView<R>, n: nat)
    requires
        c.wf(),
        c.lifecycle == VmLifecycle::Stopped,
    ensures
        c.told_often(n) == c,
        c.told_often(n).saved() == c.saved(),
        c.saved() is Some,
    decreases n,
{
    assert(c.told_to_stop() =~= c) by {
        assert(c.queue =~= Seq::empty());
    }
    if n > 0 {
        repeated_stops_agree(c, (n - 1) as nat);
    }
}

/// Before the VM has ended, a stop waits for the result of cleaning up, and what
/// is saved then is what every stop gets.
pub proof fn a_stop_gets_the_cleanup_result<R>(
    c: ControlView<R>,
    error: Option<Seq<char>>,
    result: Option<Seq<char>>,
    n: nat,
)
    requires
        c.wf(),
        c.lifecycle != VmLifecycle::Created,
        c.lifecycle != VmLifecycle::Stopped,
    ensures
        c.told_to_stop().saved() is None,
        (ControlView { cleanup_error: result, ..c.told_to_stop() }).finished(error).told_often(
            n,
        ).saved() == Some(result),
{
    let d = (ControlView { cleanup_error: result, ..c.told_to_stop() }).finished(error);
    repeated_stops_agree(d, n);
}

/// What the run thread does next, and the state after that was decided.
pub open spec fn directive_of<R>(c: ControlView<R>) -> (ControlView<R>, Directive<R>) {
    if c.lifecycle == VmLifecycle::Stopping {
        (c, Directive::Stop)
    } else if c.queue.len() > 0 {
        (ControlView { queue: c.queue.skip(1), ..c }, Directive::Serve(c.queue[0]))
    } else if c.lifecycle == VmLifecycle::Paused {
        (c, Directive::Sleep)
    } else {
        (c, Directive::Work)
    }
}

impl<R> VmControl<R> {
    pub fn new(memory: Option<MemoryControl>) -> (r: Self)
        requires
            memory matches Some(m) ==> m@.wf(),
        ensures
            r@ == ControlView::<R>::created(
                match memory {
                    Some(m) => Some(m@),
                    None => None,
                },
            ),
            r@.wf(),
    {
        VmControl {
            lifecycle: VmLifecycle::Created,
            final_error: None,
            owner: None,
            queue: Vec::new(),
            cleanup_error: None,
            memory,
        }
    }

    /// Whether virtio-mem was configured, independent of driver readiness.
    pub fn supports_memory(&self) -> (r: bool)
        ensures
            r == (self@.memory is Some),
    {
        self.memory.is_some()
    }

    /// Reads the current or final memory state; errors if virtio-mem is absent.
    pub fn memory_status(&self) -> (r: Result<MemoryStatus, ControlError>)
        ensures
            r == match self@.memory {
                Some(m) => Ok::<MemoryStatus, ControlError>(m),
                None => Err(ControlError::MemoryNotConfigured),
            },
    {
        match &self.memory {
            Some(m) => Ok(m.status()),
            None => Err(ControlError::MemoryNotConfigured),
        }
    }

    /// Accepts a target before startup, while running, or while paused. The
    /// guest reaches it asynchronously while running. Stopped VMs reject it.
    pub fn set_requested_mib(&mut self, requested: u64) -> (r: Result<(), ControlError>)
        requires
            old(self)@.wf(),
        ensures
            final(self)@.wf(),
            target_rel(old(self)@, requested, final(self)@, r),
    {
        match self.memory.take() {
            None => Err(ControlError::MemoryNotConfigured),
            Some(mut m) => {
                let result: Result<(), crate::error::MemoryError> = m.set_requested_mib(requested);
                self.memory = Some(m);
                match result {
                    Ok(_) => Ok(()),
                    Err(e) => Err(ControlError::Memory(e)),
                }
            },
        }
    }

    /// Lends the run thread a copy of the memory state for its next work. It
    /// comes back with [`VmControl::settle`]; meanwhile controllers see and
    /// steer the state as it is here.
    pub fn lend(&self) -> (r: Option<MemoryControl>)
        ensures
            lent(r) == self@.memory,
    {
        match &self.memory {
            Some(m) => Some(m.copy()),
            None => None,
        }
    }

    /// Takes over what the run thread made of the copy that it was lent. A
    /// target that was accepted meanwhile stays.
    pub fn settle(&mut self, memory: Option<MemoryControl>)
        ensures
            final(self)@ == (ControlView {
                memory: settled(old(self)@.memory, lent(memory)),
                ..old(self)@
            }),
            old(self)@.wf() && comes_back(old(self)@, lent(memory)) ==> final(self)@.wf(),
    {
        let kept: Option<MemoryControl> = self.memory.take();
        self.memory = match (kept, memory) {
            (Some(kept), Some(memory)) => Some(memory.aimed_as(&kept)),
            (kept, _) => kept,
        };
    }

    fn stop_memory(&mut self)
        ensures
            final(self)@ == (ControlView {
                memory: memory_stopped(old(self)@.memory),
                ..old(self)@
            }),
    {
        match self.memory.take() {
            None => {},
            Some(mut m) => {
                m.stop();
                self.memory = Some(m);
            },
        }
    }

    pub fn status(&self) -> (r: VmStatus)
        ensures
            r.lifecycle == self@.lifecycle,
            text(r.final_error) == self@.final_error,
    {
        VmStatus { lifecycle: self.lifecycle, final_error: copied(&self.final_error) }
    }

    /// Asks the run thread to pause all vCPUs and device processing. `caller`
    /// is the calling thread, which waits for the reply.
    pub fn pause(&mut self, reply: R, caller: u64) -> (r: Result<(), ControlError>)
        requires
            old(self)@.wf(),
        ensures
            final(self)@.wf(),
            submit_rel(
                old(self)@,
                (Request { operation: Operation::Pause, reply }),
                caller,
                final(self)@,
                r,
            ),
    {
        self.submit(Operation::Pause, reply, caller)
    }

    /// Asks the run thread to restore running scheduling.
    pub fn resume(&mut self, reply: R, caller: u64) -> (r: Result<(), ControlError>)
        requires
            old(self)@.wf(),
        ensures
            final(self)@.wf(),
            submit_rel(
                old(self)@,
                (Request { operation: Operation::Resume, reply }),
                caller,
                final(self)@,
                r,
            ),
    {
        self.submit(Operation::Resume, reply, caller)
    }

    fn submit(&mut self, operation: Operation, reply: R, caller: u64) -> (r: Result<
        (),
        ControlError,
    >)
        requires
            old(self)@.wf(),
        ensures
            final(self)@.wf(),
            submit_rel(old(self)@, (Request { operation, reply }), caller, final(self)@, r),
    {
        if self.is_owner(caller) {
            return Err(ControlError::OwnerThread);
        }
        match self.lifecycle {
            VmLifecycle::Running | VmLifecycle::Paused => {
                self.queue.push(Request { operation, reply });
                Ok(())
            },
            _ => Err(ControlError::NotRunning),
        }
    }

    fn is_owner(&self, caller: u64) -> (r: bool)
        ensures
            r == (self@.owner == Some(caller)),
    {
        match self.owner {
            Some(owner) => owner == caller,
            None => false,
        }
    }

    /// Asks for a stop. Calling before run cancels this VM; in that case memory
    /// stops immediately. The requests that waited come back; each is answered
    /// that the VM is stopping. The caller then waits for
    /// [`VmControl::stopped`].
    pub fn stop(&mut self, caller: u64) -> (r: Result<Vec<Request<R>>, ControlError>)
        requires
            old(self)@.wf(),
        ensures
            final(self)@.wf(),
            r matches Err(e) ==> e == ControlError::OwnerThread && old(self)@.owner == Some(caller)
                && final(self)@ == old(self)@,
            r matches Ok(v) ==> {
                &&& old(self)@.owner != Some(caller)
                &&& v@ == old(self)@.queue
                &&& final(self)@ == old(self)@.told_to_stop()
            },
    {
        if self.is_owner(caller) {
            return Err(ControlError::OwnerThread);
        }
        match self.lifecycle {
            VmLifecycle::Created => {
                self.stop_memory();
                self.lifecycle = VmLifecycle::Stopped;
            },
            VmLifecycle::Stopped => {},
            _ => {
                self.lifecycle = VmLifecycle::Stopping;
            },
        }
        Ok(self.cancel())
    }

    /// The saved cleanup result, once the VM has stopped.
    pub fn stopped(&self) -> (r: Option<Result<(), ControlError>>)
        ensures
            stop_result(r) == self@.saved(),
            r matches Some(Err(e)) ==> e is CleanupFailed,
    {
        match self.lifecycle {
            VmLifecycle::Stopped => match &self.cleanup_error {
                Some(m) => Some(Err(ControlError::CleanupFailed { message: m.clone() })),
                None => Some(Ok(())),
            },
            _ => None,
        }
    }

    /// Takes all requests that wait.
    fn cancel(&mut self) -> (r: Vec<Request<R>>)
        ensures
            r@ == old(self)@.queue,
            final(self)@ == (ControlView { queue: Seq::empty(), ..old(self)@ }),
    {
        let mut out: Vec<Request<R>> = Vec::new();
        std::mem::swap(&mut out, &mut self.queue);
        assert(self@ =~= (ControlView { queue: Seq::empty(), ..old(self)@ }));
        out
    }

    /// The run thread takes the VM over, unless it was cancelled before.
    pub fn begin(&mut self, owner: u64) -> (r: Result<(), ControlError>)
        requires
            old(self)@.wf(),
        ensures
            final(self)@.wf(),
            (final(self)@, r) == old(self)@.begun(owner),
    {
        match self.lifecycle {
            VmLifecycle::Created => {
                self.owner = Some(owner);
                self.lifecycle = VmLifecycle::Starting;
                Ok(())
            },
            _ => Err(ControlError::Cancelled),
        }
    }

    pub fn stopping(&self) -> (r: bool)
        ensures
            r == (self@.lifecycle == VmLifecycle::Stopping),
    {
        match self.lifecycle {
            VmLifecycle::Stopping => true,
            _ => false,
        }
    }

    /// Startup is over.
    pub fn running(&mut self)
        requires
            old(self)@.wf(),
        ensures
            final(self)@.wf(),
            final(self)@ == old(self)@.started(),
    {
        match self.lifecycle {
            VmLifecycle::Starting => {
                self.lifecycle = VmLifecycle::Running;
            },
            _ => {},
        }
    }

    /// What the run thread does next. A request that is to be served leaves the
    /// queue.
    pub fn next(&mut self) -> (r: Directive<R>)
        requires
            old(self)@.wf(),
        ensures
            final(self)@.wf(),
            (final(self)@, r) == directive_of(old(self)@),
    {
        match self.lifecycle {
            VmLifecycle::Stopping => {
                return Directive::Stop;
            },
            _ => {},
        }
        if self.queue.len() > 0 {
            let request: Request<R> = self.queue.remove(0);
            assert(self@.queue =~= old(self)@.queue.skip(1));
            return Directive::Serve(request);
        }
        match self.lifecycle {
            VmLifecycle::Paused => Directive::Sleep,
            _ => Directive::Work,
        }
    }

    /// Whether the run thread has to go on sleeping.
    pub fn asleep(&self) -> (r: bool)
        ensures
            r == (self@.lifecycle == VmLifecycle::Paused && self@.queue.len() == 0),
    {
        match self.lifecycle {
            VmLifecycle::Paused => self.queue.len() == 0,
            _ => false,
        }
    }

    /// An operation was carried out, or failed.
    pub fn complete(&mut self, operation: Operation, ok: bool)
        requires
            old(self)@.wf(),
            old(self)@.lifecycle == VmLifecycle::Running || old(self)@.lifecycle
                == VmLifecycle::Paused || old(self)@.lifecycle == VmLifecycle::Stopping,
        ensures
            final(self)@.wf(),
            final(self)@ == old(self)@.completed(operation, ok),
    {
        if ok && !self.stopping() {
            self.lifecycle = match operation {
                Operation::Pause => VmLifecycle::Paused,
                Operation::Resume => VmLifecycle::Running,
            };
        }
    }

    /// The run thread starts to clean up. The requests that waited come back.
    pub fn cleaning(&mut self) -> (r: Vec<Request<R>>)
        requires
            old(self)@.wf(),
        ensures
            r@ == old(self)@.queue,
            final(self)@ == old(self)@.tidying(),
            final(self)@.wf(),
    {
        self.lifecycle = VmLifecycle::Stopping;
        self.cancel()
    }

    /// Saves what cleaning up led to.
    pub fn cleanup_result(&mut self, error: Option<String>)
        requires
            old(self)@.wf(),
            old(self)@.lifecycle != VmLifecycle::Created,
        ensures
            final(self)@ == old(self)@.tidied(text(error)),
            final(self)@.wf(),
    {
        self.cleanup_error = error;
    }

    /// The VM has ended. The requests that waited come back.
    pub fn finish(&mut self, error: Option<String>) -> (r: Vec<Request<R>>)
        requires
            old(self)@.wf(),
        ensures
            r@ == old(self)@.queue,
            final(self)@ == old(self)@.finished(text(error)),
            final(self)@.wf(),
    {
        self.stop_memory();
        self.lifecycle = VmLifecycle::Stopped;
        self.final_error = error;
        self.owner = None;
        self.cancel()
    }

    /// The owner of the devices is gone. A VM that had not ended ends now; if
    /// its thread panicked, that is its result.
    pub fn dropped(&mut self, panicked: Option<String>) -> (r: Vec<Request<R>>)
        requires
            old(self)@.wf(),
        ensures
            final(self)@.wf(),
            final(self)@ == old(self)@.left(text(panicked)),
            r@ == if old(self)@.lifecycle == VmLifecycle::Stopped {
                Seq::empty()
            } else {
                old(self)@.queue
            },
    {
        match self.lifecycle {
            VmLifecycle::Stopped => {
                return Vec::new();
            },
            _ => {},
        }
        match panicked {
            None => self.finish(None),
            Some(m) => {
                self.stop_memory();
                self.lifecycle = VmLifecycle::Stopped;
                self.cleanup_error = Some(m.clone());
                self.final_error = Some(m);
                self.owner = None;
                self.cancel()
            },
        }
    }
}

/// Asking for a target.
pub open spec fn target_rel<R>(
    c0: ControlView<R>,
    requested: u64,
    c1: ControlView<R>,
    r: Result<(), ControlError>,
) -> bool {
    match c0.memory {
        None => c1 == c0 && r == Err::<(), ControlError>(ControlError::MemoryNotConfigured),
        Some(m) => if m.lifecycle == MemoryLifecycle::Stopped {
            c1 == c0 && r == Err::<(), ControlError>(
                ControlError::Memory(crate::error::MemoryError::Stopped),
            )
        } else if !crate::memory::target_ok(requested, m.region_size_mib, m.block_size_mib) {
            c1 == c0 && r == Err::<(), ControlError>(
                ControlError::Memory(
                    crate::error::MemoryError::InvalidTarget {
                        requested,
                        capacity: m.region_size_mib,
                        block_size_mib: m.block_size_mib,
                    },
                ),
            )
        } else {
            &&& c1 == (ControlView {
                memory: Some(MemoryStatus { requested_size_mib: requested, ..m }),
                ..c0
            })
            &&& r == Ok::<(), ControlError>(())
        },
    }
}

/// Queueing a request: the run thread may not wait for itself, and the VM must
/// run.
pub open spec fn submit_rel<R>(
    c0: ControlView<R>,
    request: Request<R>,
    caller: u64,
    c1: ControlView<R>,
    r: Result<(), ControlError>,
) -> bool {
    if c0.owner == Some(caller) {
        c1 == c0 && r == Err::<(), ControlError>(ControlError::OwnerThread)
    } else if c0.lifecycle == VmLifecycle::Running || c0.lifecycle == VmLifecycle::Paused {
        &&& c1 == (ControlView { queue: c0.queue.push(request), ..c0 })
        &&& r == Ok::<(), ControlError>(())
    } else {
        c1 == c0 && r == Err::<(), ControlError>(ControlError::NotRunning)
    }
}

/// A stopped VM stays stopped whatever is asked of it: it cannot be run, paused
/// or resumed, takes no target, and another stop changes nothing.
pub proof fn stopped_is_final<R>(
    c: ControlView<R>,
    request: Request<R>,
    requested: u64,
    caller: u64,
    c1: ControlView<R>,
    r: Result<(), ControlError>,
)
    requires
        c.wf(),
        c.lifecycle == VmLifecycle::Stopped,
        submit_rel(c, request, caller, c1, r) || target_rel(c, requested, c1, r),
    ensures
        r is Err,
        c1 == c,
        c.told_to_stop() == c,
        memory_stopped(c.memory) matches Some(m) ==> m.lifecycle == MemoryLifecycle::Stopped,
{
    assert(c.told_to_stop() =~= c) by {
        assert(c.queue =~= Seq::empty());
    }
}

/// A stop takes effect before any request that still waited: they are all
/// cancelled, and the run thread is told to stop.
pub proof fn stop_precedes_requests<R>(c: ControlView<R>)
    requires
        c.wf(),
        c.lifecycle != VmLifecycle::Created,
        c.lifecycle != VmLifecycle::Stopped,
    ensures
        c.told_to_stop().queue.len() == 0,
        directive_of(c.told_to_stop()).1 == Directive::<R>::Stop,
{
}

} // verus!

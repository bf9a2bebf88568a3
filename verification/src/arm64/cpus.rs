//! vCPU ownership, power state and cancellable quiescence.
//!
//! The state is plain: the workers share it under a lock, and wait where a gate
//! says so.
use crate::error::PlatformError;
use crate::platform::{Event as VmEvent, IoAccess, IoSpace};
use vstd::prelude::*;

verus! {

/// An access of the guest that a worker hands to the run thread.
pub struct Access<C> {
    pub addr: u64,
    pub width: usize,
    pub write: bool,
    pub value: u64,
    pub reply: C,
}

/// What a worker tells the run thread.
pub enum Event<C> {
    Access(Access<C>),
    Failed(PlatformError),
    Shutdown,
}

/// What the run thread finds when it looks for an event.
pub enum Inbox<C> {
    Event(Event<C>),
    /// Nothing came in time.
    Timeout,
    /// Every worker is gone.
    Disconnected,
}

/// What the run loop sees of it. Once the vCPUs stop, a failure that is still
/// on its way counts; otherwise the VM has shut down.
pub open spec fn event_of<C>(found: Inbox<C>, stopping: bool, late: Option<Event<C>>) -> Result<
    Option<VmEvent<C>>,
    PlatformError,
> {
    match found {
        Inbox::Event(Event::Shutdown) => Ok(Some(VmEvent::Shutdown)),
        Inbox::Event(Event::Failed(e)) => Err(e),
        Inbox::Event(Event::Access(a)) => Ok(
            Some(
                VmEvent::Io(
                    IoAccess {
                        space: IoSpace::Mmio,
                        address: a.addr,
                        width: a.width,
                        write: a.write,
                        value: a.value,
                        completion: a.reply,
                    },
                ),
            ),
        ),
        Inbox::Disconnected => Err(PlatformError::EventChannelDisconnected),
        Inbox::Timeout => if !stopping {
            Ok(None)
        } else {
            match late {
                Some(Event::Failed(e)) => Err(e),
                _ => Ok(Some(VmEvent::Shutdown)),
            }
        },
    }
}

/// Decides what the run loop sees. `late` is what came after the timeout.
pub fn next_event<C>(found: Inbox<C>, stopping: bool, late: Option<Event<C>>) -> (r: Result<
    Option<VmEvent<C>>,
    PlatformError,
>)
    ensures
        r == event_of(found, stopping, late),
{
    match found {
        Inbox::Event(e) => match e {
            Event::Shutdown => Ok(Some(VmEvent::Shutdown)),
            Event::Failed(e) => Err(e),
            Event::Access(a) => Ok(
                Some(
                    VmEvent::Io(
                        IoAccess {
                            space: IoSpace::Mmio,
                            address: a.addr,
                            width: a.width,
                            write: a.write,
                            value: a.value,
                            completion: a.reply,
                        },
                    ),
                ),
            ),
        },
        Inbox::Disconnected => Err(PlatformError::EventChannelDisconnected),
        Inbox::Timeout => {
            if !stopping {
                return Ok(None);
            }
            match late {
                Some(e) => match e {
                    Event::Failed(e) => Err(e),
                    _ => Ok(Some(VmEvent::Shutdown)),
                },
                None => Ok(Some(VmEvent::Shutdown)),
            }
        },
    }
}

/// PSCI answers that refuse a call.
pub const NOT_SUPPORTED: i64 = -1;

pub const INVALID_PARAMETERS: i64 = -2;

pub const ALREADY_ON: i64 = -4;

pub const ON_PENDING: i64 = -5;

pub const INVALID_ADDRESS: i64 = -9;

#[derive(Clone, Copy, Debug, PartialEq, Eq, Structural)]
pub enum Power {
    Off,
    /// To be started at an entry point, with a context.
    Pending(u64, u64),
    On,
}

/// The state that all workers share.
pub struct Shared {
    pub stop: bool,
    pub paused: bool,
    pub started: bool,
    pub power: Vec<Power>,
    /// Which vCPUs run guest code.
    pub running: Vec<bool>,
}

/// The shared state as plain values.
#[verifier::ext_equal]
pub struct SharedView {
    pub stop: bool,
    pub paused: bool,
    pub started: bool,
    pub power: Seq<Power>,
    pub running: Seq<bool>,
}

impl View for Shared {
    type V = SharedView;

    open spec fn view(&self) -> SharedView {
        SharedView {
            stop: self.stop,
            paused: self.paused,
            started: self.started,
            power: self.power@,
            running: self.running@,
        }
    }
}

/// What a worker may do before it runs guest code.
#[derive(Clone, Copy, Debug, PartialEq, Eq, Structural)]
pub enum Gate {
    /// Wait until something changes.
    Wait,
    /// Leave for good.
    Stop,
    /// Set the vCPU up, then enter.
    Boot { entry: u64, context: u64 },
    /// Enter.
    Run,
}

/// What a vCPU hears that waits for an access to be answered.
#[derive(Clone, Copy, Debug, PartialEq, Eq, Structural)]
pub enum Reply {
    Value(u64),
    /// Nothing came in time.
    Timeout,
    /// Nobody will answer.
    Gone,
}

impl SharedView {
    pub open spec fn wf(self) -> bool {
        self.power.len() == self.running.len()
    }

    /// Some vCPU runs guest code.
    pub open spec fn busy(self) -> bool {
        exists|i: int| 0 <= i < self.running.len() && #[trigger] self.running[i]
    }

    /// What vCPU number `index` may do.
    pub open spec fn gate(self, index: int) -> Gate {
        if self.stop {
            Gate::Stop
        } else if !self.started || self.paused || self.power[index] == Power::Off {
            Gate::Wait
        } else {
            match self.power[index] {
                Power::Pending(entry, context) => Gate::Boot { entry, context },
                _ => Gate::Run,
            }
        }
    }

    /// What a vCPU may do whose access was answered.
    pub open spec fn io_gate(self) -> Gate {
        if self.stop {
            Gate::Stop
        } else if self.paused {
            Gate::Wait
        } else {
            Gate::Run
        }
    }

    /// `count` vCPUs before anything was started.
    pub open spec fn fresh(count: u32) -> SharedView {
        SharedView {
            stop: false,
            paused: false,
            started: false,
            power: Seq::new(count as nat, |i: int| Power::Off),
            running: Seq::new(count as nat, |i: int| false),
        }
    }

    /// The first vCPU is to start at `entry` with `context`.
    pub open spec fn begun(self, entry: u64, context: u64) -> SharedView {
        SharedView {
            started: true,
            power: self.power.update(0, Power::Pending(entry, context)),
            ..self
        }
    }

    /// Every worker is to leave.
    pub open spec fn stopping(self) -> SharedView {
        SharedView { stop: true, ..self }
    }

    /// Every vCPU is to leave guest code.
    pub open spec fn pausing(self) -> SharedView {
        SharedView { paused: true, ..self }
    }

    /// Every vCPU may go on.
    pub open spec fn resuming(self) -> SharedView {
        SharedView { paused: false, ..self }
    }

    /// Whether a pause is complete; `None` while it has to be waited for.
    pub open spec fn settled(self) -> Option<Result<(), PlatformError>> {
        if self.stop {
            Some(Err(PlatformError::VmStoppedDuringMemoryTransaction))
        } else if self.busy() {
            None
        } else {
            Some(Ok(()))
        }
    }

    /// The PSCI answer to starting vCPU `target`, and the state after it.
    pub open spec fn started_cpu(self, target: u64, entry: u64, context: u64) -> (SharedView, i64) {
        if target >= self.power.len() {
            (self, INVALID_PARAMETERS)
        } else if entry % 4 != 0 {
            (self, INVALID_ADDRESS)
        } else {
            match self.power[target as int] {
                Power::On => (self, ALREADY_ON),
                Power::Pending(_, _) => (self, ON_PENDING),
                Power::Off => (
                    SharedView {
                        power: self.power.update(target as int, Power::Pending(entry, context)),
                        ..self
                    },
                    0,
                ),
            }
        }
    }

    /// The PSCI answer to asking for the state of `target` at `level`.
    pub open spec fn affinity_of(self, target: u64, level: u64) -> i64 {
        if level > 3 {
            INVALID_PARAMETERS
        } else if level == 0 {
            if target >= self.power.len() {
                INVALID_PARAMETERS
            } else {
                match self.power[target as int] {
                    Power::On => 0,
                    Power::Off => 1,
                    Power::Pending(_, _) => 2,
                }
            }
        } else if target >= level_span(level) {
            INVALID_PARAMETERS
        } else if exists|i: int|
            0 <= i < self.power.len() && #[trigger] self.power[i] != Power::Off {
            0
        } else {
            1
        }
    }
}

/// How many affinities lie below one of `level`.
pub open spec fn level_span(level: u64) -> int {
    if level == 1 {
        0x100
    } else if level == 2 {
        0x1_0000
    } else {
        0x100_0000
    }
}

impl Shared {
    pub fn new(count: u32) -> (r: Self)
        ensures
            r@ == SharedView::fresh(count),
            r@.wf(),
    {
        let mut power: Vec<Power> = Vec::new();
        let mut running: Vec<bool> = Vec::new();
        let mut i: u32 = 0;
        while i < count
            invariant
                i <= count,
                power@ =~= Seq::new(i as nat, |i: int| Power::Off),
                running@ =~= Seq::new(i as nat, |i: int| false),
            decreases count - i,
        {
            power.push(Power::Off);
            running.push(false);
            i = i + 1;
        }
        Shared { stop: false, paused: false, started: false, power, running }
    }

    /// Tells every worker to leave.
    pub fn stop(&mut self)
        ensures
            final(self)@ == old(self)@.stopping(),
    {
        self.stop = true;
    }

    /// Lets the first vCPU start at `entry` with `context`.
    pub fn start(&mut self, entry: u64, context: u64)
        requires
            old(self)@.wf(),
            old(self)@.power.len() > 0,
        ensures
            final(self)@ == old(self)@.begun(entry, context),
            final(self)@.wf(),
    {
        self.power.set(0, Power::Pending(entry, context));
        self.started = true;
    }

    /// PSCI `CPU_ON`.
    pub fn on(&mut self, target: u64, entry: u64, context: u64) -> (r: i64)
        requires
            old(self)@.wf(),
        ensures
            (final(self)@, r) == old(self)@.started_cpu(target, entry, context),
            final(self)@.wf(),
    {
        if target >= self.power.len() as u64 {
            return INVALID_PARAMETERS;
        }
        if entry % 4 != 0 {
            return INVALID_ADDRESS;
        }
        match self.power[target as usize] {
            Power::On => ALREADY_ON,
            Power::Pending(_, _) => ON_PENDING,
            Power::Off => {
                self.power.set(target as usize, Power::Pending(entry, context));
                0
            },
        }
    }

    /// PSCI `CPU_OFF`.
    pub fn off(&mut self, index: usize)
        requires
            old(self)@.wf(),
            index < old(self)@.power.len(),
        ensures
            final(self)@ == (SharedView {
                power: old(self)@.power.update(index as int, Power::Off),
                ..old(self)@
            }),
            final(self)@.wf(),
    {
        self.power.set(index, Power::Off);
    }

    /// PSCI `AFFINITY_INFO`.
    pub fn affinity(&self, target: u64, level: u64) -> (r: i64)
        ensures
            r == self@.affinity_of(target, level),
    {
        if level > 3 {
            return INVALID_PARAMETERS;
        }
        if level == 0 {
            if target >= self.power.len() as u64 {
                return INVALID_PARAMETERS;
            }
            return match self.power[target as usize] {
                Power::On => 0,
                Power::Off => 1,
                Power::Pending(_, _) => 2,
            };
        }
        let span: u64 = if level == 1 {
            0x100
        } else if level == 2 {
            0x1_0000
        } else {
            0x100_0000
        };
        if target >= span {
            return INVALID_PARAMETERS;
        }
        let mut i: usize = 0;
        while i < self.power.len()
            invariant
                1 <= level <= 3,
                target < level_span(level),
                i <= self.power@.len(),
                forall|k: int| 0 <= k < i ==> #[trigger] self.power@[k] == Power::Off,
            decreases self.power@.len() - i,
        {
            match self.power[i] {
                Power::Off => {},
                _ => {
                    assert(self.power@[i as int] != Power::Off);
                    return 0;
                },
            }
            i = i + 1;
        }
        1
    }

    /// What vCPU number `index` may do, now that it has left guest code.
    pub fn gate(&mut self, index: usize) -> (r: Gate)
        requires
            old(self)@.wf(),
            index < old(self)@.power.len(),
        ensures
            final(self)@ == (SharedView {
                running: old(self)@.running.update(index as int, false),
                ..old(self)@
            }),
            final(self)@.wf(),
            r == final(self)@.gate(index as int),
    {
        self.running.set(index, false);
        if self.stop {
            return Gate::Stop;
        }
        if !self.started || self.paused {
            return Gate::Wait;
        }
        match self.power[index] {
            Power::Off => Gate::Wait,
            Power::Pending(entry, context) => Gate::Boot { entry, context },
            Power::On => Gate::Run,
        }
    }

    /// The vCPU enters guest code.
    pub fn enter(&mut self, index: usize)
        requires
            old(self)@.wf(),
            index < old(self)@.power.len(),
        ensures
            final(self)@ == (SharedView {
                power: old(self)@.power.update(index as int, Power::On),
                running: old(self)@.running.update(index as int, true),
                ..old(self)@
            }),
            final(self)@.wf(),
    {
        self.power.set(index, Power::On);
        self.running.set(index, true);
    }

    /// The vCPU waits for an access to be answered.
    pub fn wait_io(&mut self, index: usize)
        requires
            old(self)@.wf(),
            index < old(self)@.power.len(),
        ensures
            final(self)@ == (SharedView {
                running: old(self)@.running.update(index as int, false),
                ..old(self)@
            }),
            final(self)@.wf(),
    {
        self.running.set(index, false);
    }

    /// The access of the vCPU was answered: it goes on, unless the VM is paused
    /// or stops.
    pub fn complete_io(&mut self, index: usize) -> (r: Gate)
        requires
            old(self)@.wf(),
            index < old(self)@.power.len(),
        ensures
            r == old(self)@.io_gate(),
            final(self)@ == if r == Gate::Run {
                SharedView {
                    running: old(self)@.running.update(index as int, true),
                    ..old(self)@
                }
            } else {
                old(self)@
            },
            final(self)@.wf(),
    {
        if self.stop {
            return Gate::Stop;
        }
        if self.paused {
            return Gate::Wait;
        }
        self.running.set(index, true);
        Gate::Run
    }

    /// What a vCPU does about the answer that it waits for: `None` is to wait on.
    pub fn awaited(&self, reply: Reply) -> (r: Option<Option<u64>>)
        ensures
            r == match reply {
                Reply::Value(value) => Some(Some(value)),
                Reply::Gone => Some(None),
                Reply::Timeout => if self@.stop {
                    Some(None)
                } else {
                    None
                },
            },
    {
        match reply {
            Reply::Value(value) => Some(Some(value)),
            Reply::Gone => Some(None),
            Reply::Timeout => if self.stop {
                Some(None)
            } else {
                None
            },
        }
    }

    /// Asks every vCPU to leave guest code.
    pub fn pause(&mut self)
        ensures
            final(self)@ == old(self)@.pausing(),
    {
        self.paused = true;
    }

    /// Whether the pause is complete: nothing runs guest code. `None` means that
    /// it has to be waited for; an error that the VM stops.
    pub fn quiescent(&self) -> (r: Option<Result<(), PlatformError>>)
        ensures
            r == self@.settled(),
    {
        if self.stop {
            return Some(Err(PlatformError::VmStoppedDuringMemoryTransaction));
        }
        if self.is_busy() {
            None
        } else {
            Some(Ok(()))
        }
    }

    /// Whether some vCPU runs guest code.
    pub fn is_busy(&self) -> (r: bool)
        ensures
            r == self@.busy(),
    {
        let mut i: usize = 0;
        while i < self.running.len()
            invariant
                i <= self.running@.len(),
                forall|k: int| 0 <= k < i ==> !#[trigger] self.running@[k],
            decreases self.running@.len() - i,
        {
            if self.running[i] {
                assert(self@.running[i as int]);
                return true;
            }
            i = i + 1;
        }
        false
    }

    pub fn resume(&mut self)
        ensures
            final(self)@ == old(self)@.resuming(),
    {
        self.paused = false;
    }

    /// A worker leaves for good, which stops all others. It may give up its
    /// vCPU only once nothing runs guest code.
    pub fn leave(&mut self, index: usize) -> (r: bool)
        requires
            old(self)@.wf(),
            index < old(self)@.power.len(),
        ensures
            final(self)@ == (SharedView {
                stop: true,
                running: old(self)@.running.update(index as int, false),
                ..old(self)@
            }),
            final(self)@.wf(),
            r == !final(self)@.busy(),
    {
        self.running.set(index, false);
        self.stop = true;
        !self.is_busy()
    }
}

/// While the VM is paused or stops, no vCPU passes a gate: none enters guest
/// code, and none goes on after an access.
pub proof fn pause_is_a_barrier(s: SharedView, index: int)
    requires
        s.wf(),
        0 <= index < s.power.len(),
        s.paused || s.stop,
    ensures
        s.gate(index) == Gate::Wait || s.gate(index) == Gate::Stop,
        s.io_gate() == Gate::Wait || s.io_gate() == Gate::Stop,
        s.stop ==> s.gate(index) == Gate::Stop && s.io_gate() == Gate::Stop,
{
}

/// A vCPU is started once: after a successful start its state is pending, a
/// second start is refused, and after it was switched off it can start again.
pub proof fn cpu_on_happens_once(s: SharedView, target: u64, entry: u64, context: u64)
    requires
        s.wf(),
        s.started_cpu(target, entry, context).1 == 0,
    ensures
        ({
            let t = s.started_cpu(target, entry, context).0;
            let i = target as int;
            &&& s.affinity_of(target, 0) == 1
            &&& t.affinity_of(target, 0) == 2
            &&& forall|e: u64, c: u64|
                e % 4 == 0 ==> (#[trigger] t.started_cpu(target, e, c)).1 == ON_PENDING
            &&& (SharedView { power: t.power.update(i, Power::On), ..t }).affinity_of(target, 0)
                == 0
            &&& (SharedView { power: t.power.update(i, Power::Off), ..t }).started_cpu(
                target,
                entry,
                context,
            ).1 == 0
        }),
{
}

} // verus!

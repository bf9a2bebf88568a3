//! The life of a vCPU, as the thread that owns it leads it.
//!
//! The worker decides; its thread carries each action out and tells what came of
//! it. It touches the shared state only under the lock of that state.
use crate::arm64::cpus::{Gate, Power, Reply, Shared, SharedView};
use crate::arm64::exits::{
    after_run, argument_count, arguments_of, call_firmware, firmware_call, resolve, write_back,
    written_back, Abort, Exit, Firmware, Trap, Vcpu,
};
use crate::error::PlatformError;
use vstd::prelude::*;

verus! {

/// The register that holds the program counter.
pub const PC: u32 = 31;

/// What a worker is in the middle of.
#[derive(Clone, Copy, Debug, PartialEq, Eq, Structural)]
pub enum Phase {
    /// It waits to be let in.
    Outside,
    /// The vCPU is being set up.
    Booting,
    /// Guest code runs.
    Inside,
    /// It looks where an exception happened that nothing handles.
    Lost { syndrome: u64, address: u64 },
    /// It looks which function of the firmware is called.
    Called,
    /// It looks for the first argument of a call.
    First { function: u64 },
    Second { function: u64, a: u64 },
    Third { function: u64, a: u64, b: u64 },
    /// It hands over the answer of the firmware.
    Answered,
    /// It tells the run thread that the VM ends.
    Ending,
    /// It looks for the value that the guest writes to a device.
    Operand { abort: Abort },
    /// It hands an access to the run thread.
    Asked { abort: Abort },
    /// It waits for the answer.
    Awaiting { abort: Abort },
    /// It has the answer, and waits to go on.
    Returning { abort: Abort, value: u64 },
    /// It stores a register, and will pass the instruction over.
    Storing,
    /// It looks where the guest is.
    Skipping,
    /// It passes the instruction over.
    Skipped,
    /// It has left.
    Gone,
}

/// What a worker is told.
#[derive(Debug)]
pub enum Input {
    /// The shared state may have changed.
    Changed,
    /// What was asked for was done, or failed.
    Done(Result<(), PlatformError>),
    /// The vCPU left guest code.
    Exited(Result<Exit, PlatformError>),
    /// What a register holds.
    Register(Result<u64, PlatformError>),
    /// What was heard of an access.
    Reply(Reply),
}

/// What a worker asks for.
#[derive(Debug)]
pub enum Action {
    /// Wait until the shared state changes.
    Wait,
    /// Set the vCPU up, and keep the shared state locked meanwhile.
    Boot { entry: u64, context: u64 },
    /// Run guest code.
    Run,
    /// Read a register.
    Read(u32),
    /// Write a register.
    Write(u32, u64),
    /// Hand an access to the run thread.
    Ask { addr: u64, width: usize, write: bool, value: u64 },
    /// Wait a while for the answer.
    Listen,
    /// Tell the run thread that the VM ends.
    Tell,
    /// Leave for good.
    Leave(Result<(), PlatformError>),
}

/// A worker in its phase, the shared state, and what is asked for.
pub type Turn = (Phase, SharedView, Action);

pub open spec fn width_ok(a: Abort) -> bool {
    a.width == 1 || a.width == 2 || a.width == 4 || a.width == 8
}

/// The shared state with vCPU number `index` in guest code.
pub open spec fn entered(s: SharedView, index: int) -> SharedView {
    SharedView {
        power: s.power.update(index, Power::On),
        running: s.running.update(index, true),
        ..s
    }
}

/// The shared state with vCPU number `index` out of guest code.
pub open spec fn outside(s: SharedView, index: int) -> SharedView {
    SharedView { running: s.running.update(index, false), ..s }
}

/// A worker that leaves.
pub open spec fn left(s: SharedView, result: Result<(), PlatformError>) -> Turn {
    (Phase::Gone, s, Action::Leave(result))
}

/// A worker that has done with an exit, or looks again whether it is let in.
pub open spec fn let_in(s: SharedView, index: int) -> Turn {
    let t = outside(s, index);
    match t.gate(index) {
        Gate::Wait => (Phase::Outside, t, Action::Wait),
        Gate::Stop => left(t, Ok(())),
        Gate::Boot { entry, context } => (Phase::Booting, t, Action::Boot { entry, context }),
        Gate::Run => (Phase::Inside, entered(t, index), Action::Run),
    }
}

/// A worker that hands over the access `a`.
pub open spec fn asked(s: SharedView, a: Abort, value: u64) -> Turn {
    (
        Phase::Asked { abort: a },
        s,
        Action::Ask { addr: a.address, width: a.width, write: a.write, value },
    )
}

/// A worker that has the answer `value` to the access `a`.
pub open spec fn gone_on(s: SharedView, index: int, a: Abort, value: u64) -> Turn {
    let t = SharedView { running: s.running.update(index, true), ..s };
    match s.io_gate() {
        Gate::Wait => (Phase::Returning { abort: a, value }, s, Action::Wait),
        Gate::Stop => left(s, Ok(())),
        _ => match written_back(a, value) {
            Some((reg, v)) => (Phase::Storing, t, Action::Write(reg, v)),
            None => (Phase::Skipping, t, Action::Read(PC)),
        },
    }
}

/// A worker whose vCPU called the firmware.
pub open spec fn fired(s: SharedView, index: int, function: u64, args: Seq<u64>) -> Turn {
    let (t, answer) = firmware_call(s, index, function, args);
    match answer {
        Firmware::Answer(v) => (Phase::Answered, t, Action::Write(0, v as u64)),
        Firmware::Off => let_in(t, index),
        Firmware::Shutdown => (Phase::Ending, t, Action::Tell),
    }
}

/// A worker whose vCPU left guest code.
pub open spec fn trapped(s: SharedView, index: int, exit: Result<Exit, PlatformError>) -> Turn {
    match after_run(s, exit) {
        Err(e) => left(s, Err(e)),
        Ok(None) => left(s, Ok(())),
        Ok(Some(trap)) => match trap {
            Trap::Kicked => let_in(s, index),
            Trap::Firmware => (Phase::Called, s, Action::Read(0)),
            Trap::Access(a) => if a.write && a.reg != 31 {
                (Phase::Operand { abort: a }, s, Action::Read(a.reg))
            } else {
                asked(s, a, 0)
            },
            Trap::Debug { reg: Some(reg) } => (Phase::Storing, s, Action::Write(reg, 0)),
            Trap::Debug { reg: None } => (Phase::Skipping, s, Action::Read(PC)),
            Trap::Idle => (Phase::Skipping, s, Action::Read(PC)),
            Trap::Unhandled { syndrome, address } => (
                Phase::Lost { syndrome, address },
                s,
                Action::Read(PC),
            ),
        },
    }
}

/// A worker that was told what register it looked at holds.
pub open spec fn looked(p: Phase, s: SharedView, index: int, v: u64) -> Turn {
    match p {
        Phase::Lost { syndrome, address } => left(
            s,
            Err(PlatformError::UnhandledException { syndrome, address, pc: v }),
        ),
        Phase::Called => if arguments_of(v) == 0 {
            fired(s, index, v, seq![0, 0, 0])
        } else {
            (Phase::First { function: v }, s, Action::Read(1))
        },
        Phase::First { function } => (Phase::Second { function, a: v }, s, Action::Read(2)),
        Phase::Second { function, a } => if arguments_of(function) == 2 {
            fired(s, index, function, seq![a, v, 0])
        } else {
            (Phase::Third { function, a, b: v }, s, Action::Read(3))
        },
        Phase::Third { function, a, b } => fired(s, index, function, seq![a, b, v]),
        Phase::Operand { abort } => asked(s, abort, v),
        _ => (Phase::Skipped, s, Action::Write(PC, (v + 4) as u64)),
    }
}

/// A worker that was told that what it asked for is done.
pub open spec fn done(p: Phase, s: SharedView, index: int) -> Turn {
    match p {
        Phase::Booting => (Phase::Inside, entered(s, index), Action::Run),
        Phase::Ending => left(SharedView { stop: true, ..s }, Ok(())),
        Phase::Asked { abort } => (Phase::Awaiting { abort }, outside(s, index), Action::Listen),
        Phase::Storing => (Phase::Skipping, s, Action::Read(PC)),
        _ => let_in(s, index),
    }
}

/// A worker that heard of its access.
pub open spec fn heard(s: SharedView, index: int, a: Abort, reply: Reply) -> Turn {
    match reply {
        Reply::Value(v) => gone_on(s, index, a, v),
        Reply::Gone => left(s, Ok(())),
        Reply::Timeout => if s.stop {
            left(s, Ok(()))
        } else {
            (Phase::Awaiting { abort: a }, s, Action::Listen)
        },
    }
}

/// What a worker does about `input`.
pub open spec fn stepped(p: Phase, s: SharedView, index: int, input: Input) -> Turn {
    match input {
        Input::Changed => match p {
            Phase::Returning { abort, value } => gone_on(s, index, abort, value),
            _ => let_in(s, index),
        },
        Input::Exited(exit) => trapped(s, index, exit),
        Input::Register(Err(e)) => left(s, Err(e)),
        Input::Register(Ok(v)) => looked(p, s, index, v),
        Input::Done(Err(e)) => left(s, Err(e)),
        Input::Done(Ok(_)) => done(p, s, index),
        Input::Reply(reply) => match p {
            Phase::Awaiting { abort } => heard(s, index, abort, reply),
            _ => left(s, Ok(())),
        },
    }
}

/// Whether `input` answers what a worker in phase `p` asked for. A vCPU is set
/// up under the lock, so that it may still start; and the guest does not run off
/// the end of its addresses.
pub open spec fn answers(p: Phase, s: SharedView, index: int, input: Input) -> bool {
    match p {
        Phase::Outside | Phase::Returning { .. } => input is Changed,
        Phase::Booting => input is Done && s.gate(index) is Boot,
        Phase::Inside => input is Exited,
        Phase::Lost { .. } | Phase::Called | Phase::First { .. } | Phase::Second { .. }
        | Phase::Third { .. } | Phase::Operand { .. } => input is Register,
        Phase::Skipping => input matches Input::Register(v) && (v matches Ok(pc) ==> pc + 4
            <= u64::MAX),
        Phase::Answered | Phase::Ending | Phase::Asked { .. } | Phase::Storing
        | Phase::Skipped => input is Done,
        Phase::Awaiting { .. } => input is Reply,
        Phase::Gone => false,
    }
}

/// The accesses that a worker remembers have a width.
pub open spec fn phase_ok(p: Phase) -> bool {
    match p {
        Phase::Operand { abort } => width_ok(abort),
        Phase::Asked { abort } => width_ok(abort),
        Phase::Awaiting { abort } => width_ok(abort),
        Phase::Returning { abort, .. } => width_ok(abort),
        _ => true,
    }
}

/// The worker of vCPU number `index`.
pub struct Worker {
    index: usize,
    phase: Phase,
}

impl Worker {
    pub closed spec fn number(self) -> int {
        self.index as int
    }

    pub closed spec fn at(self) -> Phase {
        self.phase
    }

    pub open spec fn wf(self) -> bool {
        phase_ok(self.at())
    }

    /// A worker that has done nothing yet. It is told first that the shared
    /// state may have changed.
    pub fn new(index: usize) -> (r: Self)
        ensures
            r.number() == index,
            r.at() == Phase::Outside,
            r.wf(),
    {
        Worker { index, phase: Phase::Outside }
    }

    /// What the worker is in the middle of.
    pub fn phase(&self) -> (r: Phase)
        ensures
            r == self.at(),
    {
        self.phase
    }

    fn turn(&mut self, phase: Phase, action: Action) -> (r: Action)
        ensures
            final(self).number() == old(self).number(),
            final(self).at() == phase,
            r == action,
    {
        self.phase = phase;
        action
    }

    fn let_in(&mut self, shared: &mut Shared) -> (r: Action)
        requires
            old(shared)@.wf(),
            old(self).number() < old(shared)@.power.len(),
        ensures
            final(shared)@.wf(),
            final(self).number() == old(self).number(),
            (final(self).at(), final(shared)@, r) == let_in(old(shared)@, old(self).number()),
    {
        match shared.gate(self.index) {
            Gate::Wait => self.turn(Phase::Outside, Action::Wait),
            Gate::Stop => self.turn(Phase::Gone, Action::Leave(Ok(()))),
            Gate::Boot { entry, context } => self.turn(
                Phase::Booting,
                Action::Boot { entry, context },
            ),
            Gate::Run => {
                shared.enter(self.index);
                self.turn(Phase::Inside, Action::Run)
            },
        }
    }

    fn ask(&mut self, a: Abort, value: u64) -> (r: Action)
        ensures
            final(self).number() == old(self).number(),
            forall|s: SharedView|
                (final(self).at(), s, r) == #[trigger] asked(s, a, value),
    {
        self.turn(
            Phase::Asked { abort: a },
            Action::Ask { addr: a.address, width: a.width, write: a.write, value },
        )
    }

    fn go_on(&mut self, shared: &mut Shared, a: Abort, value: u64) -> (r: Action)
        requires
            old(shared)@.wf(),
            old(self).number() < old(shared)@.power.len(),
            width_ok(a),
        ensures
            final(shared)@.wf(),
            final(self).number() == old(self).number(),
            (final(self).at(), final(shared)@, r) == gone_on(
                old(shared)@,
                old(self).number(),
                a,
                value,
            ),
    {
        match shared.complete_io(self.index) {
            Gate::Wait => self.turn(Phase::Returning { abort: a, value }, Action::Wait),
            Gate::Stop => self.turn(Phase::Gone, Action::Leave(Ok(()))),
            _ => match write_back(&a, value) {
                Some((reg, v)) => self.turn(Phase::Storing, Action::Write(reg, v)),
                None => self.turn(Phase::Skipping, Action::Read(PC)),
            },
        }
    }

    fn fire(&mut self, shared: &mut Shared, function: u64, args: [u64; 3]) -> (r: Action)
        requires
            old(shared)@.wf(),
            old(self).number() < old(shared)@.power.len(),
        ensures
            final(shared)@.wf(),
            final(self).number() == old(self).number(),
            (final(self).at(), final(shared)@, r) == fired(
                old(shared)@,
                old(self).number(),
                function,
                args@,
            ),
    {
        match call_firmware(shared, self.index, function, args) {
            Firmware::Answer(v) => self.turn(Phase::Answered, Action::Write(0, v as u64)),
            Firmware::Off => self.let_in(shared),
            Firmware::Shutdown => self.turn(Phase::Ending, Action::Tell),
        }
    }

    fn trap(&mut self, shared: &mut Shared, exit: Result<Exit, PlatformError>) -> (r: Action)
        requires
            old(shared)@.wf(),
            old(self).number() < old(shared)@.power.len(),
        ensures
            final(shared)@.wf(),
            final(self).number() == old(self).number(),
            (final(self).at(), final(shared)@, r) == trapped(
                old(shared)@,
                old(self).number(),
                exit,
            ),
    {
        match resolve(shared, exit) {
            Err(e) => self.turn(Phase::Gone, Action::Leave(Err(e))),
            Ok(None) => self.turn(Phase::Gone, Action::Leave(Ok(()))),
            Ok(Some(trap)) => match trap {
                Trap::Kicked => self.let_in(shared),
                Trap::Firmware => self.turn(Phase::Called, Action::Read(0)),
                Trap::Access(a) => match a.operand() {
                    Some(reg) => self.turn(Phase::Operand { abort: a }, Action::Read(reg)),
                    None => self.ask(a, 0),
                },
                Trap::Debug { reg: Some(reg) } => self.turn(Phase::Storing, Action::Write(reg, 0)),
                Trap::Debug { reg: None } => self.turn(Phase::Skipping, Action::Read(PC)),
                Trap::Idle => self.turn(Phase::Skipping, Action::Read(PC)),
                Trap::Unhandled { syndrome, address } => self.turn(
                    Phase::Lost { syndrome, address },
                    Action::Read(PC),
                ),
            },
        }
    }

    fn look(&mut self, shared: &mut Shared, v: u64) -> (r: Action)
        requires
            old(shared)@.wf(),
            old(self).number() < old(shared)@.power.len(),
            answers(
                old(self).at(),
                old(shared)@,
                old(self).number(),
                Input::Register(Ok(v)),
            ),
        ensures
            final(shared)@.wf(),
            final(self).number() == old(self).number(),
            (final(self).at(), final(shared)@, r) == looked(
                old(self).at(),
                old(shared)@,
                old(self).number(),
                v,
            ),
    {
        match self.phase {
            Phase::Lost { syndrome, address } => self.turn(
                Phase::Gone,
                Action::Leave(
                    Err(PlatformError::UnhandledException { syndrome, address, pc: v }),
                ),
            ),
            Phase::Called => if argument_count(v) == 0 {
                let args: [u64; 3] = [0, 0, 0];
                assert(args@ =~= seq![0, 0, 0]);
                self.fire(shared, v, args)
            } else {
                self.turn(Phase::First { function: v }, Action::Read(1))
            },
            Phase::First { function } => self.turn(
                Phase::Second { function, a: v },
                Action::Read(2),
            ),
            Phase::Second { function, a } => if argument_count(function) == 2 {
                let args: [u64; 3] = [a, v, 0];
                assert(args@ =~= seq![a, v, 0]);
                self.fire(shared, function, args)
            } else {
                self.turn(Phase::Third { function, a, b: v }, Action::Read(3))
            },
            Phase::Third { function, a, b } => {
                let args: [u64; 3] = [a, b, v];
                assert(args@ =~= seq![a, b, v]);
                self.fire(shared, function, args)
            },
            Phase::Operand { abort } => self.ask(abort, v),
            _ => {
                let mut vcpu: Vcpu = Vcpu { id: self.index as u64, pc: v };
                vcpu.advance();
                self.turn(Phase::Skipped, Action::Write(PC, vcpu.pc))
            },
        }
    }

    fn done(&mut self, shared: &mut Shared) -> (r: Action)
        requires
            old(shared)@.wf(),
            old(self).number() < old(shared)@.power.len(),
        ensures
            final(shared)@.wf(),
            final(self).number() == old(self).number(),
            (final(self).at(), final(shared)@, r) == done(
                old(self).at(),
                old(shared)@,
                old(self).number(),
            ),
    {
        match self.phase {
            Phase::Booting => {
                shared.enter(self.index);
                self.turn(Phase::Inside, Action::Run)
            },
            Phase::Ending => {
                shared.stop();
                self.turn(Phase::Gone, Action::Leave(Ok(())))
            },
            Phase::Asked { abort } => {
                shared.wait_io(self.index);
                self.turn(Phase::Awaiting { abort }, Action::Listen)
            },
            Phase::Storing => self.turn(Phase::Skipping, Action::Read(PC)),
            _ => self.let_in(shared),
        }
    }

    fn hear(&mut self, shared: &mut Shared, a: Abort, reply: Reply) -> (r: Action)
        requires
            old(shared)@.wf(),
            old(self).number() < old(shared)@.power.len(),
            width_ok(a),
        ensures
            final(shared)@.wf(),
            final(self).number() == old(self).number(),
            (final(self).at(), final(shared)@, r) == heard(
                old(shared)@,
                old(self).number(),
                a,
                reply,
            ),
    {
        match shared.awaited(reply) {
            None => self.turn(Phase::Awaiting { abort: a }, Action::Listen),
            Some(None) => self.turn(Phase::Gone, Action::Leave(Ok(()))),
            Some(Some(v)) => self.go_on(shared, a, v),
        }
    }

    /// Takes in what came of the last action, and decides on the next.
    pub fn step(&mut self, shared: &mut Shared, input: Input) -> (r: Action)
        requires
            old(self).wf(),
            old(shared)@.wf(),
            old(self).number() < old(shared)@.power.len(),
            answers(old(self).at(), old(shared)@, old(self).number(), input),
        ensures
            final(self).wf(),
            final(shared)@.wf(),
            final(self).number() == old(self).number(),
            (final(self).at(), final(shared)@, r) == stepped(
                old(self).at(),
                old(shared)@,
                old(self).number(),
                input,
            ),
    {
        match input {
            Input::Changed => match self.phase {
                Phase::Returning { abort, value } => self.go_on(shared, abort, value),
                _ => self.let_in(shared),
            },
            Input::Exited(exit) => self.trap(shared, exit),
            Input::Register(Err(e)) => self.turn(Phase::Gone, Action::Leave(Err(e))),
            Input::Register(Ok(v)) => self.look(shared, v),
            Input::Done(Err(e)) => self.turn(Phase::Gone, Action::Leave(Err(e))),
            Input::Done(Ok(_)) => self.done(shared),
            Input::Reply(reply) => match self.phase {
                Phase::Awaiting { abort } => self.hear(shared, abort, reply),
                _ => self.turn(Phase::Gone, Action::Leave(Ok(()))),
            },
        }
    }
}

/// Whether the flag that the workers share is right about a worker: it is up
/// from when guest code may run until the worker waits again.
pub open spec fn flagged(p: Phase, s: SharedView, index: int) -> bool {
    match p {
        Phase::Outside | Phase::Booting | Phase::Awaiting { .. }
        | Phase::Returning { .. } => !s.running[index],
        Phase::Gone => true,
        _ => s.running[index],
    }
}

/// Whether an action touches the guest.
pub open spec fn touches_guest(a: Action) -> bool {
    a is Run || a is Read || a is Write
}

/// What holds of every turn of the worker of vCPU number `index`.
pub open spec fn honest(s: SharedView, index: int, turn: Turn) -> bool {
    let (q, t, action) = turn;
    &&& t.wf()
    &&& t.power.len() == s.power.len()
    &&& flagged(q, t, index)
    &&& touches_guest(action) ==> t.running[index]
    &&& action is Run ==> !t.paused && !t.stop && t.started
    &&& forall|j: int|
        0 <= j < s.running.len() && j != index ==> #[trigger] t.running[j] == s.running[j]
}

proof fn lemma_let_in(s: SharedView, index: int)
    requires
        s.wf(),
        0 <= index < s.power.len(),
    ensures
        honest(s, index, let_in(s, index)),
{
}

proof fn lemma_gone_on(s: SharedView, index: int, a: Abort, value: u64)
    requires
        s.wf(),
        0 <= index < s.power.len(),
        !s.running[index],
    ensures
        honest(s, index, gone_on(s, index, a, value)),
{
}

proof fn lemma_fired(s: SharedView, index: int, function: u64, args: Seq<u64>)
    requires
        s.wf(),
        0 <= index < s.power.len(),
        s.running[index],
    ensures
        honest(s, index, fired(s, index, function, args)),
{
    let (t, answer) = firmware_call(s, index, function, args);
    assert(t.wf() && t.running == s.running && t.power.len() == s.power.len());
    lemma_let_in(t, index);
}

proof fn lemma_trapped(s: SharedView, index: int, exit: Result<Exit, PlatformError>)
    requires
        s.wf(),
        0 <= index < s.power.len(),
        s.running[index],
    ensures
        honest(s, index, trapped(s, index, exit)),
{
    lemma_let_in(s, index);
}

proof fn lemma_looked(p: Phase, s: SharedView, index: int, v: u64)
    requires
        s.wf(),
        0 <= index < s.power.len(),
        s.running[index],
    ensures
        honest(s, index, looked(p, s, index, v)),
{
    match p {
        Phase::Called => lemma_fired(s, index, v, seq![0, 0, 0]),
        Phase::Second { function, a } => lemma_fired(s, index, function, seq![a, v, 0]),
        Phase::Third { function, a, b } => lemma_fired(s, index, function, seq![a, b, v]),
        _ => {},
    }
}

/// A worker touches guest code and guest registers only while the others see it
/// running, it enters the guest only while the VM runs, and it never answers for
/// another vCPU. So once a pause is complete, nothing touches the guest.
pub proof fn guests_are_touched_only_while_running(
    p: Phase,
    s: SharedView,
    index: int,
    input: Input,
)
    requires
        s.wf(),
        0 <= index < s.power.len(),
        answers(p, s, index, input),
        flagged(p, s, index),
    ensures
        honest(s, index, stepped(p, s, index, input)),
{
    lemma_let_in(s, index);
    match input {
        Input::Exited(exit) => lemma_trapped(s, index, exit),
        Input::Register(Ok(v)) => lemma_looked(p, s, index, v),
        Input::Reply(Reply::Value(v)) => match p {
            Phase::Awaiting { abort } => lemma_gone_on(s, index, abort, v),
            _ => {},
        },
        Input::Changed => match p {
            Phase::Returning { abort, value } => lemma_gone_on(s, index, abort, value),
            _ => {},
        },
        _ => {},
    }
}

/// A worker that a pause found outside the guest stays outside: until the VM is
/// resumed it waits, or leaves because the VM stops.
pub proof fn paused_workers_stay_outside(p: Phase, s: SharedView, index: int, input: Input)
    requires
        s.wf(),
        0 <= index < s.power.len(),
        answers(p, s, index, input),
        flagged(p, s, index),
        s.paused,
        !s.running[index],
    ensures
        ({
            let (q, t, action) = stepped(p, s, index, input);
            &&& !t.running[index]
            &&& action is Wait || action is Listen || action is Leave
            &&& flagged(q, t, index)
        }),
{
}

/// Once the VM stops, a worker that comes back from the guest, waits to be let
/// in or waits for an answer leaves without a failure.
pub proof fn stopped_workers_leave(p: Phase, s: SharedView, index: int, input: Input)
    requires
        s.wf(),
        0 <= index < s.power.len(),
        answers(p, s, index, input),
        s.stop,
        p is Inside || p is Outside || p is Returning || p is Awaiting,
    ensures
        stepped(p, s, index, input).2 == Action::Leave(Ok(())),
        stepped(p, s, index, input).0 == Phase::Gone,
{
}

} // verus!

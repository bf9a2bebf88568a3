//! What a VM is promised over its life: requests are served in the order in which
//! they came, one thread runs it, and a stop is the end.
use crate::control::{
    directive_of, submit_rel, target_rel, ControlView, Directive, Operation, Request, VmLifecycle,
};
use crate::error::{ControlError, MemoryError};
use crate::memory::{targeted, MemoryStatus};
use crate::protocol::{asked, fed, next_of, Work};
use vstd::prelude::*;

verus! {

/// The state after the run thread asked `n` times what to do.
pub open spec fn asked_often<R>(c: ControlView<R>, n: nat) -> ControlView<R>
    decreases n,
{
    if n == 0 {
        c
    } else {
        directive_of(asked_often(c, (n - 1) as nat)).0
    }
}

proof fn lemma_asked<R>(c: ControlView<R>, n: nat)
    requires
        c.lifecycle == VmLifecycle::Running || c.lifecycle == VmLifecycle::Paused,
        n <= c.queue.len(),
    ensures
        asked_often(c, n) == (ControlView { queue: c.queue.skip(n as int), ..c }),
    decreases n,
{
    if n == 0 {
        assert(c.queue.skip(0) =~= c.queue);
    } else {
        lemma_asked(c, (n - 1) as nat);
        assert(c.queue.skip(n - 1).skip(1) =~= c.queue.skip(n as int));
    }
}

/// A request is accepted while the VM runs or is paused, unless the run thread
/// itself makes it. It waits its turn: everything that came before is served first,
/// one request at a time and in order, and then it is served itself.
pub proof fn requests_are_served_in_order<R>(
    c0: ControlView<R>,
    request: Request<R>,
    caller: u64,
    c1: ControlView<R>,
    r: Result<(), ControlError>,
)
    requires
        submit_rel(c0, request, caller, c1, r),
    ensures
        r is Ok <==> c0.owner != Some(caller) && (c0.lifecycle is Running
            || c0.lifecycle is Paused),
        r is Err ==> c1 == c0,
        r == Err::<(), ControlError>(ControlError::OwnerThread) <==> c0.owner == Some(caller),
        r is Ok ==> {
            let n = c0.queue.len();
            &&& forall|i: int|
                #![trigger c0.queue[i]]
                0 <= i < n ==> directive_of(asked_often(c1, i as nat)).1 == Directive::<R>::Serve(
                    c0.queue[i],
                )
            &&& directive_of(asked_often(c1, n)).1 == Directive::<R>::Serve(request)
            &&& c1.lifecycle == c0.lifecycle
            &&& c1.owner == c0.owner
        },
{
    if r is Ok {
        let n = c0.queue.len();
        assert forall|i: int| #![trigger c0.queue[i]] 0 <= i < n implies directive_of(
            asked_often(c1, i as nat),
        ).1 == Directive::<R>::Serve(c0.queue[i]) by {
            lemma_asked(c1, i as nat);
            assert(c1.queue.skip(i)[0] == c1.queue[i]);
        }
        lemma_asked(c1, n);
        assert(c1.queue.skip(n as int)[0] == request);
    }
}

/// The run thread works while the VM runs and sleeps while it is paused. It leaves
/// once a stop is wanted, whatever waits.
pub proof fn the_run_thread_does_what_is_wanted<R>(c: ControlView<R>)
    requires
        c.wf(),
    ensures
        ({
            let (next, d) = directive_of(c);
            &&& d is Stop <==> c.lifecycle is Stopping
            &&& d is Serve ==> c.queue.len() > 0 && next.queue.len() == c.queue.len() - 1
            &&& d is Sleep <==> c.lifecycle is Paused && c.queue.len() == 0
            &&& c.lifecycle is Running && c.queue.len() == 0 ==> d is Work
            &&& d !is Serve ==> next == c
            &&& next.lifecycle == c.lifecycle
            &&& next.memory == c.memory
        }),
{
}

/// A VM is taken over once, by the first thread that wants to run it, and only if
/// nobody stopped it before. Then it starts, and then it runs, unless a stop came in
/// between.
pub proof fn a_vm_is_run_once<R>(c: ControlView<R>, owner: u64, other: u64)
    ensures
        ({
            let (next, r) = c.begun(owner);
            &&& r is Ok <==> c.lifecycle is Created
            &&& r is Err ==> next == c && r->Err_0 is Cancelled
            &&& r is Ok ==> next.lifecycle is Starting && next.owner == Some(owner) && next.queue
                == c.queue && next.memory == c.memory
            &&& next.begun(other).1 is Err
            &&& r is Ok ==> next.started().lifecycle is Running && next.started().owner == Some(
                owner,
            )
            &&& r is Ok ==> next.told_to_stop().started().lifecycle is Stopping
            &&& c.told_to_stop().begun(owner).1 is Err
        }),
{
}

/// A pause that was carried out pauses the VM, a resume lets it run again; what
/// failed changes nothing, and a stop that came in between stays.
pub proof fn a_resume_undoes_a_pause<R>(c: ControlView<R>)
    requires
        c.lifecycle is Running || c.lifecycle is Paused || c.lifecycle is Stopping,
    ensures
        !(c.lifecycle is Stopping) ==> c.completed(Operation::Pause, true).lifecycle is Paused,
        !(c.lifecycle is Stopping) ==> c.completed(Operation::Resume, true).lifecycle is Running,
        c.lifecycle is Stopping ==> c.completed(Operation::Pause, true) == c && c.completed(
            Operation::Resume,
            true,
        ) == c,
        c.completed(Operation::Pause, false) == c,
        c.completed(Operation::Resume, false) == c,
        c.lifecycle is Running ==> c.completed(Operation::Pause, true).completed(
            Operation::Resume,
            true,
        ) == c,
        c.lifecycle is Paused ==> c.completed(Operation::Resume, true).completed(
            Operation::Pause,
            true,
        ) == c,
{
}

/// A stop empties the queue. A VM that never ran ends at once; one that runs is on
/// its way to the end, and its thread is told; one that ended stays as it is.
pub proof fn a_stop_is_the_end<R>(
    c: ControlView<R>,
    error: Option<Seq<char>>,
    cleanup: Option<Seq<char>>,
)
    requires
        c.wf(),
    ensures
        c.told_to_stop().queue.len() == 0,
        c.lifecycle is Created ==> c.told_to_stop().lifecycle is Stopped,
        c.lifecycle is Stopped ==> c.told_to_stop() == c,
        c.lifecycle is Starting || c.lifecycle is Running || c.lifecycle is Paused
            || c.lifecycle is Stopping ==> c.told_to_stop().lifecycle is Stopping && directive_of(
            c.told_to_stop(),
        ).1 is Stop && c.told_to_stop().owner == c.owner,
        c.tidying().lifecycle is Stopping && c.tidying().queue.len() == 0 && c.tidying().owner
            == c.owner,
        c.tidied(cleanup).finished(error).lifecycle is Stopped,
        c.tidied(cleanup).finished(error).final_error == error,
        c.tidied(cleanup).finished(error).cleanup_error == cleanup,
        c.tidied(cleanup).finished(error).owner is None,
        c.tidied(cleanup).finished(error).queue.len() == 0,
        c.finished(error).memory matches Some(m) ==> m.lifecycle is Stopped && !m.driver_ready
            && c.memory is Some && m.requested_size_mib == (c.memory->0).requested_size_mib
            && m.plugged_size_mib == (c.memory->0).plugged_size_mib,
        c.finished(error).memory is Some <==> c.memory is Some,
{
    if c.lifecycle is Stopped {
        assert(c.queue =~= Seq::empty());
    }
}

/// Devices that are dropped end a VM that had not ended; a panic is then its
/// result, and that of cleaning up.
pub proof fn a_lost_vm_has_ended<R>(c: ControlView<R>, panicked: Option<Seq<char>>)
    requires
        c.wf(),
    ensures
        c.left(panicked).lifecycle is Stopped,
        c.lifecycle is Stopped ==> c.left(panicked) == c,
        !(c.lifecycle is Stopped) ==> c.left(panicked).final_error == panicked && c.left(
            panicked,
        ).queue.len() == 0 && c.left(panicked).owner is None,
        !(c.lifecycle is Stopped) ==> c.left(panicked).cleanup_error == if panicked is Some {
            panicked
        } else {
            c.cleanup_error
        },
{
}

/// A target is accepted if it is made of whole blocks and fits the region, until
/// the memory is stopped; then it is the target, and nothing else changes.
pub proof fn targets_are_whole_blocks(s: MemoryStatus, mib: u64)
    requires
        s.wf(),
    ensures
        ({
            let (r, after) = targeted(s, mib);
            &&& r is Ok <==> !(s.lifecycle is Stopped) && mib <= s.region_size_mib && exists|k: int|
                #[trigger] crate::math::through(k) && k * s.block_size_mib == mib
            &&& r is Ok ==> after.requested_size_mib == mib && after == (MemoryStatus {
                requested_size_mib: mib,
                ..s
            })
            &&& r is Err ==> after == s
            &&& s.lifecycle is Stopped ==> r == Err::<(), MemoryError>(MemoryError::Stopped)
        }),
{
    let b = s.block_size_mib as int;
    crate::memory::lemma_block_positive(s.block_size_mib);
    vstd::arithmetic::div_mod::lemma_fundamental_div_mod(mib as int, b);
    let q = mib as int / b;
    assert(crate::math::through(q));
    assert(b * q == q * b) by (nonlinear_arith);
    if exists|k: int| #[trigger] crate::math::through(k) && k * s.block_size_mib == mib {
        let k = choose|k: int| #[trigger] crate::math::through(k) && k * s.block_size_mib == mib;
        vstd::arithmetic::div_mod::lemma_mod_multiples_basic(k, b);
    }
}

/// So it is through the control of a VM that has such memory.
pub proof fn targets_reach_the_memory<R>(
    c0: ControlView<R>,
    mib: u64,
    c1: ControlView<R>,
    r: Result<(), ControlError>,
)
    requires
        target_rel(c0, mib, c1, r),
    ensures
        c0.memory is None ==> c1 == c0 && r == Err::<(), ControlError>(
            ControlError::MemoryNotConfigured,
        ),
        c0.memory matches Some(m) ==> {
            &&& r is Ok <==> targeted(m, mib).0 is Ok
            &&& c1.memory == Some(targeted(m, mib).1)
            &&& c1 == (ControlView { memory: c1.memory, ..c0 })
            &&& r matches Err(e) ==> (e matches ControlError::Memory(f) && targeted(m, mib).0
                == Err::<(), MemoryError>(f))
        },
{
}

/// What a client asks for is done: the status is shown without any work, other
/// requests do what they are named after, and requests about memory show the memory.
pub proof fn requests_do_what_they_say(request: crate::protocol::Request)
    ensures
        asked(request).0 is Nothing <==> request is Status || request is MemoryStatus,
        asked(request).0 is Pause <==> request is Pause,
        asked(request).0 is Resume <==> request is Resume,
        asked(request).0 is Stop <==> request is Stop,
        asked(request).0 is Target <==> request is MemorySet,
        request matches crate::protocol::Request::MemorySet { requested_mib } ==> asked(request).0
            == Work::Target(requested_mib),
        asked(request).1 is Memory <==> request is MemoryStatus || request is MemorySet,
{
}

/// A line ends at the first newline, which does not belong to it, and no line is
/// longer than 4096 bytes.
pub proof fn lines_end_at_the_newline(bytes: Seq<u8>)
    ensures
        fed(bytes) matches Ok((line, done)) ==> {
            &&& line.len() <= bytes.len()
            &&& line == bytes.take(line.len() as int)
            &&& line.len() <= 4096
            &&& forall|i: int| 0 <= i < line.len() ==> #[trigger] line[i] != 10
            &&& done ==> line.len() < bytes.len() && bytes[line.len() as int] == 10
            &&& !done ==> line == bytes
        },
        fed(bytes) is Err ==> bytes.len() > 4096 && forall|i: int|
            0 <= i <= 4096 ==> #[trigger] bytes[i] != 10,
    decreases bytes.len(),
{
    if bytes.len() > 0 {
        let fewer = bytes.drop_last();
        lines_end_at_the_newline(fewer);
        let all = fed(bytes);
        match fed(fewer) {
            Err(_) => {
                assert forall|i: int| 0 <= i <= 4096 implies #[trigger] bytes[i] != 10 by {
                    assert(bytes[i] == fewer[i]);
                }
            },
            Ok((line, done)) => {
                if done {
                    assert(bytes.take(line.len() as int) =~= fewer.take(line.len() as int));
                    assert(bytes[line.len() as int] == fewer[line.len() as int]);
                } else {
                    assert(line =~= fewer);
                    assert(bytes.take(fewer.len() as int) =~= fewer);
                    if bytes.last() != 10 && line.len() < 4096 {
                        assert(line.push(bytes.last()) =~= bytes);
                        assert(bytes.take(bytes.len() as int) =~= bytes);
                    }
                    if all is Err {
                        assert forall|i: int| 0 <= i <= 4096 implies #[trigger] bytes[i] != 10 by {
                            if i < line.len() {
                                assert(line[i] == bytes[i]);
                            }
                        }
                    }
                }
            },
        }
    } else {
        assert(bytes.take(0) =~= bytes);
        assert(bytes =~= Seq::empty());
    }
}

/// A server leaves when a stop is wanted, and else takes up to 16 clients at a
/// time.
pub proof fn servers_take_so_many_clients(stopping: bool, clients: usize)
    ensures
        next_of(stopping, clients) is Leave <==> stopping,
        next_of(stopping, clients) is Accept <==> !stopping && clients < 16,
{
}

/// While a VM works with its memory, the target that was asked for meanwhile stays,
/// and what is plugged and whether the driver is up come from the VM.
pub proof fn targets_outlast_a_turn(kept: MemoryStatus, used: MemoryStatus)
    ensures
        crate::control::settled(Some(kept), Some(used)) matches Some(m) && m.requested_size_mib
            == kept.requested_size_mib && m.plugged_size_mib == used.plugged_size_mib
            && m.driver_ready == used.driver_ready && m.lifecycle == used.lifecycle,
        crate::control::settled(None, Some(used)) is None,
        crate::control::settled(Some(kept), None) == Some(kept),
{
}

} // verus!

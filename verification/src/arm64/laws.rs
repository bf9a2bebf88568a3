//! What the guest may rely on: how its exceptions are read, what its accesses
//! and its calls of the firmware lead to.
use crate::arm64::cpus::{event_of, Event, Gate, Inbox, Power, Reply, SharedView};
use crate::arm64::exits::{
    boot_values, firmware_call, trap_of, written_back, Abort, Exit, Firmware, Trap,
};
use crate::arm64::worker::{answers, stepped, Action, Input, Phase};
use crate::error::PlatformError;
use crate::platform::{Event as VmEvent, IoSpace};
use vstd::prelude::*;

verus! {

proof fn lemma_bits(esr: u64)
    by (bit_vector)
    ensures
        esr / 0x400_0000 == esr >> 26,
        esr / 0x100_0000 % 2 == 1 <==> esr & 0x100_0000 != 0,
        esr / 0x80 % 2 == 1 <==> esr & 0x80 != 0,
        esr / 0x100 % 2 == 1 <==> esr & 0x100 != 0,
        esr / 0x40 % 2 == 1 <==> esr & 0x40 != 0,
        esr / 0x20_0000 % 2 == 1 <==> esr & 0x20_0000 != 0,
        esr / 0x8000 % 2 == 1 <==> esr & 0x8000 != 0,
        esr % 2 == 1 <==> esr & 1 != 0,
        esr / 0x40_0000 % 4 == (esr >> 22) & 3,
        (esr >> 22) & 3 < 4,
        esr / 0x1_0000 % 32 == (esr >> 16) & 31,
        esr / 0x20 % 32 == (esr >> 5) & 31,
        esr / 0x10_0000 % 4 == (esr >> 20) & 3,
        esr / 0x4000 % 8 == (esr >> 14) & 7,
        esr / 0x400 % 16 == (esr >> 10) & 15,
        esr / 2 % 16 == (esr >> 1) & 15,
        esr / 0x2_0000 % 8 == (esr >> 17) & 7,
{
}

proof fn lemma_shifts(size: u64)
    by (bit_vector)
    requires
        size < 4,
    ensures
        size == 0 ==> 1u64 << size == 1,
        size == 1 ==> 1u64 << size == 2,
        size == 2 ==> 1u64 << size == 4,
        size == 3 ==> 1u64 << size == 8,
{
}

/// An exit is an access of a device exactly where the syndrome says that a data
/// abort describes its instruction, and that it is neither a walk of the page
/// tables nor a cache operation. Then each field of the syndrome is taken as
/// the architecture has it: the width is two to the power of bits 23 and 22, the
/// register is in bits 20 to 16, bit 6 tells a write, bit 21 a signed and bit 15
/// a wide register; and the address is the one that faulted.
pub proof fn accesses_are_read_off_the_syndrome(exit: Exit)
    ensures
        ({
            let esr = exit.exception.syndrome;
            let access = exit.reason == 1 && esr >> 26 == 0x24 && esr & 0x100_0000 != 0 && esr
                & 0x80 == 0 && esr & 0x100 == 0;
            &&& access <==> (trap_of(exit) matches Ok(t) && t is Access)
            &&& trap_of(exit) matches Ok(Trap::Access(a)) ==> {
                &&& a.width == 1u64 << ((esr >> 22) & 3)
                &&& a.reg == (esr >> 16) & 31
                &&& a.write <==> esr & 0x40 != 0
                &&& a.signed <==> esr & 0x20_0000 != 0
                &&& a.wide <==> esr & 0x8000 != 0
                &&& a.address == exit.exception.physical_address
            }
            &&& exit.reason == 1 && esr >> 26 == 0x24 && !access ==> trap_of(exit) == Err::<
                Trap,
                PlatformError,
            >(
                PlatformError::UnsupportedDataAbort {
                    syndrome: esr,
                    address: exit.exception.physical_address,
                },
            )
        }),
{
    let esr = exit.exception.syndrome;
    lemma_bits(esr);
    lemma_shifts((esr >> 22) & 3);
}

/// Every other exit: one that was asked for is none of the guest's doing, a call
/// is told by class 0x16 and an idle instruction by class 1, and a register of
/// the debug logic is named by all five parts of its encoding. A register is
/// cleared exactly where one of those is read into one that exists.
pub proof fn other_exits_are_told_by_their_class(exit: Exit)
    ensures
        ({
            let esr = exit.exception.syndrome;
            let class = esr >> 26;
            let crm = (esr >> 1) & 15;
            let debug = (esr >> 20) & 3 == 2 && (esr >> 14) & 7 == 0 && (esr >> 10) & 15 == 1
                && (esr >> 17) & 7 == 4 && (crm == 0 || crm == 1 || crm == 3);
            &&& trap_of(exit) == Ok::<Trap, PlatformError>(Trap::Kicked) <==> exit.reason == 0
            &&& exit.reason > 1 <==> (trap_of(exit) matches Err(e) && e is UnexpectedHvfExit)
            &&& trap_of(exit) == Ok::<Trap, PlatformError>(Trap::Firmware) <==> exit.reason == 1
                && class == 0x16
            &&& trap_of(exit) == Ok::<Trap, PlatformError>(Trap::Idle) <==> exit.reason == 1
                && class == 1
            &&& (trap_of(exit) matches Ok(t) && t is Debug) <==> exit.reason == 1 && class == 0x18
                && debug
            &&& (trap_of(exit) matches Err(e) && e is UnsupportedSysreg) <==> exit.reason == 1
                && class == 0x18 && !debug
            &&& trap_of(exit) matches Ok(Trap::Debug { reg }) ==> match reg {
                Some(r) => r == (esr >> 5) & 31 && r < 31 && esr & 1 != 0,
                None => esr & 1 == 0 || (esr >> 5) & 31 == 31,
            }
            &&& (trap_of(exit) matches Ok(t) && t is Unhandled) <==> exit.reason == 1 && class != 0x16
                && class != 0x24 && class != 0x18 && class != 1
            &&& trap_of(exit) matches Ok(Trap::Unhandled { syndrome, address }) ==> syndrome == esr
                && address == exit.exception.physical_address
        }),
{
    let esr = exit.exception.syndrome;
    lemma_bits(esr);
}

/// `v` as a signed number of 64 bits.
pub open spec fn signed_value(v: u64) -> int {
    if v < 0x8000_0000_0000_0000 {
        v as int
    } else {
        v - 0x1_0000_0000_0000_0000
    }
}

/// `x` is the signed number in the lower `bytes` bytes of `v`.
pub open spec fn is_signed_part(x: int, v: u64, bytes: usize) -> bool {
    let span = vstd::arithmetic::power2::pow2((8 * bytes) as nat) as int;
    -span <= 2 * x < span && (v - x) % span == 0
}

proof fn lemma_spans()
    ensures
        vstd::arithmetic::power2::pow2(8) == 0x100,
        vstd::arithmetic::power2::pow2(16) == 0x1_0000,
        vstd::arithmetic::power2::pow2(32) == 0x1_0000_0000,
        vstd::arithmetic::power2::pow2(64) == 0x1_0000_0000_0000_0000,
{
    vstd::arithmetic::power2::lemma2_to64();
    vstd::arithmetic::power2::lemma2_to64_rest();
}

/// What a load leaves in its register; a store, and a load into no register,
/// leave every register as it is. A signed load gives the number that was read,
/// of as many bytes as were read; another one gives it as it came. Of a narrow
/// register only the lower half is set.
pub proof fn loads_give_what_was_read(a: Abort, value: u64)
    requires
        a.width == 1 || a.width == 2 || a.width == 4 || a.width == 8,
    ensures
        written_back(a, value) is None <==> a.write || a.reg == 31,
        written_back(a, value) matches Some((reg, v)) ==> {
            &&& reg == a.reg
            &&& !a.signed && a.wide ==> v == value
            &&& !a.signed && !a.wide ==> v == value & 0xffff_ffff
            &&& a.signed && a.wide ==> is_signed_part(signed_value(v), value, a.width)
            &&& a.signed && !a.wide ==> v <= 0xffff_ffff && exists|w: u64|
                v == #[trigger] (w & 0xffff_ffff) && is_signed_part(signed_value(w), value, a.width)
        },
{
    lemma_spans();
    let w = crate::arm64::exits::sign_extended(value, a.width);
    assert(value & 0xffff_ffff == value % 0x1_0000_0000) by (bit_vector);
    assert(w & 0xffff_ffff == w % 0x1_0000_0000) by (bit_vector);
    let x = signed_value(w);
    if a.width == 1 {
        assert((value - x) % 0x100 == 0);
    } else if a.width == 2 {
        assert((value - x) % 0x1_0000 == 0);
    } else if a.width == 4 {
        assert((value - x) % 0x1_0000_0000 == 0);
    } else {
        assert((value - x) % 0x1_0000_0000_0000_0000 == 0);
    }
    assert(is_signed_part(x, value, a.width));
}

/// What a vCPU may do, by its power and the state of the VM: it runs where it is
/// on, the VM was started, and is neither paused nor stopping; it is set up
/// first where it was just switched on; and it leaves where the VM stops.
pub proof fn gates_follow_the_power(s: SharedView, index: int)
    requires
        s.wf(),
        0 <= index < s.power.len(),
    ensures
        s.gate(index) == Gate::Stop <==> s.stop,
        s.gate(index) == Gate::Run <==> s.started && !s.paused && !s.stop && s.power[index]
            == Power::On,
        forall|entry: u64, context: u64|
            s.gate(index) == (Gate::Boot { entry, context }) <==> s.started && !s.paused && !s.stop
                && #[trigger] s.power[index] == Power::Pending(entry, context),
        s.io_gate() == Gate::Stop <==> s.stop,
        s.io_gate() == Gate::Run <==> !s.paused && !s.stop,
        s.io_gate() is Boot ==> false,
{
}

/// A VM that was started runs its first vCPU from `entry` with `context`, and no
/// other until that one switches it on.
pub proof fn the_first_vcpu_boots(count: u32, entry: u64, context: u64, index: int)
    requires
        0 <= index < count,
    ensures
        SharedView::fresh(count).wf(),
        SharedView::fresh(count).power.len() == count,
        SharedView::fresh(count).gate(index) == Gate::Wait,
        SharedView::fresh(count).settled() == Some(Ok::<(), PlatformError>(())),
        SharedView::fresh(count).begun(entry, context).gate(index) == if index == 0 {
            Gate::Boot { entry, context }
        } else {
            Gate::Wait
        },
{
}

/// A pause holds every vCPU back and a resume undoes it; it is complete exactly
/// when none runs guest code, and a stop wins over both.
pub proof fn a_pause_lasts_until_the_resume(s: SharedView, index: int)
    requires
        s.wf(),
        0 <= index < s.power.len(),
    ensures
        s.pausing().paused && !s.resuming().paused,
        !s.paused ==> s.pausing().resuming() == s,
        s.pausing().gate(index) == if s.stop {
            Gate::Stop
        } else {
            Gate::Wait
        },
        s.settled() == Some(Ok::<(), PlatformError>(())) <==> !s.stop && forall|i: int|
            0 <= i < s.running.len() ==> !#[trigger] s.running[i],
        s.settled() is None <==> !s.stop && exists|i: int|
            0 <= i < s.running.len() && #[trigger] s.running[i],
        s.stopping().gate(index) == Gate::Stop,
        s.stopping().io_gate() == Gate::Stop,
        s.stopping().settled() matches Some(r) && r is Err,
{
}

proof fn lemma_low_half(v: u64)
    by (bit_vector)
    ensures
        v % 0x1_0000_0000 == v & 0xffff_ffff,
        (v & 0xffff_ffff) & 0xffff_ffff == v & 0xffff_ffff,
{
}

proof fn lemma_call_width(function: u64)
    by (bit_vector)
    ensures
        function / 0x4000_0000 % 2 == 1 <==> function & 0x4000_0000 != 0,
{
}

/// Switching a vCPU on, by either of the two calls. It succeeds exactly for one
/// that exists and is off, at an aligned entry; then that one, and no other, is
/// to start there with that context. Each refusal says why. The call of 32 bits
/// sees the lower halves of its arguments.
pub proof fn cpu_on_starts_a_vcpu_that_is_off(
    s: SharedView,
    index: int,
    target: u64,
    entry: u64,
    context: u64,
)
    requires
        s.wf(),
    ensures
        ({
            let (t, answer) = firmware_call(s, index, 0xc400_0003, seq![target, entry, context]);
            let exists_there = target < s.power.len();
            &&& answer is Answer
            &&& answer->Answer_0 == 0 <==> exists_there && entry & 3 == 0 && s.power[target as int]
                == Power::Off
            &&& answer->Answer_0 == 0 ==> {
                &&& t.power.len() == s.power.len()
                &&& t.power[target as int] == Power::Pending(entry, context)
                &&& forall|j: int|
                    0 <= j < s.power.len() && j != target ==> #[trigger] t.power[j] == s.power[j]
                &&& t == (SharedView { power: t.power, ..s })
            }
            &&& answer->Answer_0 != 0 ==> t == s
            &&& answer->Answer_0 == -2 <==> !exists_there
            &&& answer->Answer_0 == -9 <==> exists_there && entry & 3 != 0
            &&& answer->Answer_0 == -4 <==> exists_there && entry & 3 == 0 && s.power[target as int]
                == Power::On
            &&& answer->Answer_0 == -5 <==> exists_there && entry & 3 == 0 && s.power[target as int]
                is Pending
            &&& firmware_call(s, index, 0x8400_0003, seq![target, entry, context])
                == firmware_call(
                s,
                index,
                0xc400_0003,
                seq![target & 0xffff_ffff, entry & 0xffff_ffff, context & 0xffff_ffff],
            )
        }),
{
    lemma_call_width(0xc400_0003);
    lemma_call_width(0x8400_0003);
    assert(0xc400_0003u64 & 0x4000_0000 != 0) by (bit_vector);
    assert(0x8400_0003u64 & 0x4000_0000 == 0) by (bit_vector);
    assert(entry & 3 == entry % 4) by (bit_vector);
    lemma_low_half(target);
    lemma_low_half(entry);
    lemma_low_half(context);
}

/// Asking for the power of a vCPU tells what it is: on, off, or about to start.
/// Above the level of a vCPU it tells whether any is not off.
pub proof fn affinity_info_tells_the_power(s: SharedView, index: int, target: u64, level: u64)
    requires
        s.wf(),
    ensures
        ({
            let (t, answer) = firmware_call(s, index, 0xc400_0004, seq![target, level, 0]);
            let some_on = exists|i: int|
                0 <= i < s.power.len() && #[trigger] s.power[i] != Power::Off;
            &&& t == s
            &&& answer is Answer
            &&& level == 0 && target < s.power.len() ==> {
                &&& answer->Answer_0 == 0 <==> s.power[target as int] == Power::On
                &&& answer->Answer_0 == 1 <==> s.power[target as int] == Power::Off
                &&& answer->Answer_0 == 2 <==> s.power[target as int] is Pending
            }
            &&& 1 <= level <= 3 && target >> ((8 * level) as u64) == 0 ==> {
                &&& answer->Answer_0 == 0 <==> some_on
                &&& answer->Answer_0 == 1 <==> !some_on
            }
            &&& answer->Answer_0 == -2 <==> level > 3 || (level == 0 && target >= s.power.len())
                || (1 <= level <= 3 && target >> ((8 * level) as u64) != 0)
            &&& firmware_call(s, index, 0x8400_0004, seq![target, level, 0]) == firmware_call(
                s,
                index,
                0xc400_0004,
                seq![target & 0xffff_ffff, level & 0xffff_ffff, 0],
            )
        }),
{
    lemma_call_width(0xc400_0004);
    lemma_call_width(0x8400_0004);
    assert(0xc400_0004u64 & 0x4000_0000 != 0) by (bit_vector);
    assert(0x8400_0004u64 & 0x4000_0000 == 0) by (bit_vector);
    lemma_low_half(target);
    lemma_low_half(level);
    lemma_low_half(0);
    assert(target >> 8 == 0 <==> target < 0x100) by (bit_vector);
    assert(target >> 16 == 0 <==> target < 0x1_0000) by (bit_vector);
    assert(target >> 24 == 0 <==> target < 0x100_0000) by (bit_vector);
    assert(0u64 & 0xffff_ffff == 0) by (bit_vector);
    if level == 1 {
        assert((8 * level) as u64 == 8);
    } else if level == 2 {
        assert((8 * level) as u64 == 16);
    } else if level == 3 {
        assert((8 * level) as u64 == 24);
    }
}

/// The other calls. A vCPU that switches itself off is off, alone, and waits;
/// the VM ends where the guest asks for it to be switched off or reset; whatever
/// changes the state of the vCPUs is one of those that switch one on or off; and
/// a call that is not known says so.
pub proof fn other_calls_do_as_they_say(s: SharedView, index: int, function: u64, args: Seq<u64>)
    requires
        s.wf(),
        0 <= index < s.power.len(),
        args.len() == 3,
    ensures
        ({
            let (t, answer) = firmware_call(s, index, function, args);
            &&& answer is Off <==> function == 0x8400_0002
            &&& answer is Off ==> {
                &&& t.power[index] == Power::Off
                &&& t.power.len() == s.power.len()
                &&& forall|j: int|
                    0 <= j < s.power.len() && j != index ==> #[trigger] t.power[j] == s.power[j]
                &&& t == (SharedView { power: t.power, ..s })
                &&& !t.stop ==> t.gate(index) == Gate::Wait
            }
            &&& answer is Shutdown <==> function == 0x8400_0008 || function == 0x8400_0009
            &&& t != s ==> function == 0x8400_0002 || function == 0x8400_0003 || function
                == 0xc400_0003
            &&& function == 0x8400_0000 ==> answer == Firmware::Answer(2)
            &&& function == 0x8400_0006 ==> answer == Firmware::Answer(2)
            &&& !(function <= 0x8400_0009 && function >= 0x8400_0000) && function != 0xc400_0003
                && function != 0xc400_0004 ==> answer is Answer && answer->Answer_0 == -1
            &&& function == 0x8400_0001 || function == 0x8400_0005 || function == 0x8400_0007
                ==> answer is Answer && answer->Answer_0 == -1
        }),
{
}

/// The vCPU runs guest code, and nothing holds it back.
pub open spec fn at_work(s: SharedView, index: int) -> bool {
    &&& s.wf()
    &&& 0 <= index < s.power.len()
    &&& s.started && !s.paused && !s.stop
    &&& s.power[index] == Power::On
    &&& s.running[index]
}

/// A load from a device: it is asked for as the instruction has it, its answer
/// goes to the register, the instruction is passed over and the guest goes on.
pub proof fn loads_are_carried_out(s: SharedView, index: int, exit: Exit, v: u64, pc: u64)
    requires
        at_work(s, index),
        trap_of(exit) matches Ok(Trap::Access(a)) && !a.write && a.reg != 31,
        pc + 4 <= u64::MAX,
    ensures
        ({
            let a = trap_of(exit)->Ok_0->Access_0;
            let esr = exit.exception.syndrome;
            let done = Input::Done(Ok(()));
            let heard = Input::Reply(Reply::Value(v));
            let t1 = stepped(Phase::Inside, s, index, Input::Exited(Ok(exit)));
            let t2 = stepped(t1.0, t1.1, index, done);
            let t3 = stepped(t2.0, t2.1, index, heard);
            let t4 = stepped(t3.0, t3.1, index, done);
            let t5 = stepped(t4.0, t4.1, index, Input::Register(Ok(pc)));
            let t6 = stepped(t5.0, t5.1, index, done);
            &&& t1.2 == (Action::Ask {
                addr: exit.exception.physical_address,
                width: (1u64 << ((esr >> 22) & 3)) as usize,
                write: false,
                value: 0,
            })
            &&& answers(t1.0, t1.1, index, done) && t2.2 == Action::Listen
            &&& !t2.1.running[index]
            &&& answers(t2.0, t2.1, index, heard)
            &&& t3.2 matches Action::Write(reg, x) && reg == (esr >> 16) & 31 && written_back(a, v)
                == Some((reg, x))
            &&& answers(t3.0, t3.1, index, done) && t4.2 == Action::Read(31)
            &&& answers(t4.0, t4.1, index, Input::Register(Ok(pc)))
            &&& t5.2 == Action::Write(31, (pc + 4) as u64)
            &&& answers(t5.0, t5.1, index, done) && t6.2 == Action::Run && t6.0 == Phase::Inside
        }),
{
    accesses_are_read_off_the_syndrome(exit);
    loads_give_what_was_read(trap_of(exit)->Ok_0->Access_0, v);
}

/// A store to a device: the value of the register is handed over as the
/// instruction has it, or zero where it names none; then the instruction is
/// passed over and the guest goes on.
pub proof fn stores_are_carried_out(
    s: SharedView,
    index: int,
    exit: Exit,
    held: u64,
    v: u64,
    pc: u64,
)
    requires
        at_work(s, index),
        trap_of(exit) matches Ok(Trap::Access(a)) && a.write,
        pc + 4 <= u64::MAX,
    ensures
        ({
            let esr = exit.exception.syndrome;
            let done = Input::Done(Ok(()));
            let heard = Input::Reply(Reply::Value(v));
            let named = (esr >> 16) & 31 != 31;
            let t0 = stepped(Phase::Inside, s, index, Input::Exited(Ok(exit)));
            let t1 = if named {
                stepped(t0.0, t0.1, index, Input::Register(Ok(held)))
            } else {
                t0
            };
            let t2 = stepped(t1.0, t1.1, index, done);
            let t3 = stepped(t2.0, t2.1, index, heard);
            let t4 = stepped(t3.0, t3.1, index, Input::Register(Ok(pc)));
            let t5 = stepped(t4.0, t4.1, index, done);
            &&& named ==> t0.2 == Action::Read(((esr >> 16) & 31) as u32) && answers(
                t0.0,
                t0.1,
                index,
                Input::Register(Ok(held)),
            )
            &&& t1.2 == (Action::Ask {
                addr: exit.exception.physical_address,
                width: (1u64 << ((esr >> 22) & 3)) as usize,
                write: true,
                value: if named {
                    held
                } else {
                    0
                },
            })
            &&& answers(t1.0, t1.1, index, done) && t2.2 == Action::Listen
            &&& answers(t2.0, t2.1, index, heard) && t3.2 == Action::Read(31)
            &&& answers(t3.0, t3.1, index, Input::Register(Ok(pc)))
            &&& t4.2 == Action::Write(31, (pc + 4) as u64)
            &&& answers(t4.0, t4.1, index, done) && t5.2 == Action::Run && t5.0 == Phase::Inside
        }),
{
    accesses_are_read_off_the_syndrome(exit);
    loads_give_what_was_read(trap_of(exit)->Ok_0->Access_0, v);
}

/// A call of the firmware to switch a vCPU on: the function and its three
/// arguments are taken from the first four registers in turn, and the answer
/// goes to the first one. A call without arguments is answered at once.
pub proof fn firmware_calls_are_answered(
    s: SharedView,
    index: int,
    exit: Exit,
    function: u64,
    a: u64,
    b: u64,
    c: u64,
)
    requires
        at_work(s, index),
        trap_of(exit) == Ok::<Trap, PlatformError>(Trap::Firmware),
    ensures
        ({
            let t1 = stepped(Phase::Inside, s, index, Input::Exited(Ok(exit)));
            let t2 = stepped(t1.0, t1.1, index, Input::Register(Ok(function)));
            let t3 = stepped(t2.0, t2.1, index, Input::Register(Ok(a)));
            let t4 = stepped(t3.0, t3.1, index, Input::Register(Ok(b)));
            let t5 = stepped(t4.0, t4.1, index, Input::Register(Ok(c)));
            let plain = firmware_call(s, index, function, seq![0, 0, 0]);
            let two = firmware_call(s, index, function, seq![a, b, 0]);
            let three = firmware_call(s, index, function, seq![a, b, c]);
            &&& t1.2 == Action::Read(0) && t1.0 == Phase::Called
            &&& function == 0x8400_0003 || function == 0xc400_0003 ==> {
                &&& t2.2 == Action::Read(1) && t3.2 == Action::Read(2) && t4.2 == Action::Read(3)
                &&& t5.1 == three.0
                &&& t5.2 == Action::Write(0, (three.1->Answer_0) as u64)
                &&& stepped(t5.0, t5.1, index, Input::Done(Ok(()))).2 == Action::Run
            }
            &&& function == 0x8400_0004 || function == 0xc400_0004 ==> {
                &&& t2.2 == Action::Read(1) && t3.2 == Action::Read(2)
                &&& t4.1 == two.0
                &&& t4.2 == Action::Write(0, (two.1->Answer_0) as u64)
                &&& stepped(t4.0, t4.1, index, Input::Done(Ok(()))).2 == Action::Run
            }
            &&& function != 0x8400_0003 && function != 0xc400_0003 && function != 0x8400_0004
                && function != 0xc400_0004 ==> match plain.1 {
                Firmware::Answer(v) => t2.2 == Action::Write(0, v as u64) && t2.1 == plain.0,
                Firmware::Off => t2.2 == Action::Wait && t2.1.power[index] == Power::Off
                    && !t2.1.running[index],
                Firmware::Shutdown => {
                    let end = stepped(t2.0, t2.1, index, Input::Done(Ok(())));
                    t2.2 == Action::Tell && end.1.stop && end.2 == Action::Leave(Ok(()))
                },
            }
        }),
{
    lemma_call_width(function);
    let t = firmware_call(s, index, function, seq![a, b, c]).0;
    if function == 0x8400_0003 || function == 0xc400_0003 {
        assert(t.power[index] == Power::On);
        assert(t.running == s.running);
    }
}

/// An exit that was asked for, and an instruction that is passed over: the
/// guest goes on as if nothing had happened, behind the instruction where it has
/// one.
pub proof fn the_guest_goes_on(s: SharedView, index: int, exit: Exit, pc: u64)
    requires
        at_work(s, index),
        trap_of(exit) is Ok,
        pc + 4 <= u64::MAX,
    ensures
        ({
            let trap = trap_of(exit)->Ok_0;
            let done = Input::Done(Ok(()));
            let t1 = stepped(Phase::Inside, s, index, Input::Exited(Ok(exit)));
            let t2 = if trap matches Trap::Debug { reg: Some(_) } {
                stepped(t1.0, t1.1, index, done)
            } else {
                t1
            };
            let t3 = stepped(t2.0, t2.1, index, Input::Register(Ok(pc)));
            let t4 = stepped(t3.0, t3.1, index, done);
            &&& trap is Kicked ==> t1.2 == Action::Run
            &&& trap matches Trap::Debug { reg: Some(r) } ==> t1.2 == Action::Write(r, 0)
            &&& trap is Debug || trap is Idle ==> {
                &&& t2.2 == Action::Read(31)
                &&& t3.2 == Action::Write(31, (pc + 4) as u64)
                &&& t4.2 == Action::Run
            }
            &&& trap matches Trap::Unhandled { syndrome, address } ==> t1.2 == Action::Read(31)
                && t3.2 == Action::Leave(
                Err(PlatformError::UnhandledException { syndrome, address, pc }),
            )
        }),
{
}

/// Whatever a worker is told to do fails, it leaves with that failure.
pub proof fn failures_end_a_worker(p: Phase, s: SharedView, index: int, e: PlatformError)
    ensures
        stepped(p, s, index, Input::Done(Err(e))).2 == Action::Leave(Err(e)),
        stepped(p, s, index, Input::Register(Err(e))).2 == Action::Leave(Err(e)),
        !s.stop ==> stepped(p, s, index, Input::Exited(Err(e))).2 == Action::Leave(Err(e)),
{
}

/// What the run thread gets of the workers: each access as it was handed over,
/// the first failure, and the end of the VM. Nothing else is an event, and none
/// is made up while the VM goes on.
pub proof fn events_arrive_as_sent<C>(found: Inbox<C>, stopping: bool, late: Option<Event<C>>)
    ensures
        (event_of(found, stopping, late) matches Ok(Some(e)) && e is Io) <==> (
        found matches Inbox::Event(e) && e is Access),
        (event_of(found, stopping, late), found) matches (
            Ok(Some(VmEvent::Io(io))),
            Inbox::Event(Event::Access(a)),
        ) ==> {
            &&& io.space == IoSpace::Mmio
            &&& io.address == a.addr
            &&& io.width == a.width
            &&& io.write == a.write
            &&& io.value == a.value
            &&& io.completion == a.reply
        },
        forall|e: PlatformError|
            found == Inbox::<C>::Event(Event::Failed(e)) ==> #[trigger] event_of(
                found,
                stopping,
                late,
            ) == Err::<Option<VmEvent<C>>, PlatformError>(e),
        event_of(found, stopping, late) == Ok::<Option<VmEvent<C>>, PlatformError>(None) <==> found
            is Timeout && !stopping,
        event_of(found, stopping, late) == Ok::<Option<VmEvent<C>>, PlatformError>(
            Some(VmEvent::Shutdown),
        ) <==> found == Inbox::<C>::Event(Event::Shutdown) || (found is Timeout && stopping && !(
        late matches Some(e) && e is Failed)),
{
}

/// What register `reg` holds after `settings` were made in turn.
pub open spec fn held_after(settings: Seq<(u32, u64)>, reg: u32) -> Option<u64>
    decreases settings.len(),
{
    if settings.len() == 0 {
        None
    } else if settings.last().0 == reg {
        Some(settings.last().1)
    } else {
        held_after(settings.drop_last(), reg)
    }
}

proof fn lemma_zeroed(n: nat, reg: u32)
    requires
        n <= 31,
    ensures
        held_after(Seq::new(n, |i: int| (i as u32, 0u64)), reg) == if reg < n {
            Some(0u64)
        } else {
            None
        },
    decreases n,
{
    let zeros = Seq::new(n, |i: int| (i as u32, 0u64));
    if n > 0 {
        assert(zeros.drop_last() =~= Seq::new((n - 1) as nat, |i: int| (i as u32, 0u64)));
        lemma_zeroed((n - 1) as nat, reg);
    }
}

/// A vCPU starts at its entry, with its context in the first register, zero in
/// the other thirty, and exceptions masked at the level of a kernel.
pub proof fn vcpus_start_at_their_entry(entry: u64, context: u64, reg: u32)
    ensures
        held_after(boot_values(entry, context), 0) == Some(context),
        1 <= reg <= 30 ==> held_after(boot_values(entry, context), reg) == Some(0u64),
        held_after(boot_values(entry, context), 31) == Some(entry),
        held_after(boot_values(entry, context), 34) == Some(0x3c5u64),
        reg > 34 || reg == 32 || reg == 33 ==> held_after(boot_values(entry, context), reg) is None,
{
    let all = boot_values(entry, context);
    let zeros = Seq::new(31, |i: int| (i as u32, 0u64));
    let a = all.drop_last();
    let b = a.drop_last();
    let c = b.drop_last();
    assert(c =~= zeros);
    assert(all.last() == (0u32, context));
    assert(a.last() == (31u32, entry));
    assert(b.last() == (34u32, 0x3c5u64));
    lemma_zeroed(31, reg);
    lemma_zeroed(31, 34);
    reveal_with_fuel(held_after, 5);
}

/// A vCPU that is let in is marked as switched on and as running, and so it is again
/// once the answer to its access came and it goes on. No other vCPU's mark changes.
pub proof fn running_vcpus_are_marked(p: Phase, s: SharedView, index: int, input: Input)
    requires
        s.wf(),
        0 <= index < s.power.len(),
    ensures
        ({
            let (q, t, action) = stepped(p, s, index, input);
            &&& action is Run ==> t.running[index] && t.power[index] is On
            &&& t.running.len() == s.running.len()
            &&& forall|i: int|
                0 <= i < s.running.len() && i != index ==> #[trigger] t.running[i] == s.running[i]
            &&& (p is Awaiting && input is Reply || p is Returning && input is Changed) && (
            action is Write || action is Read) ==> t.running[index]
            &&& action is Listen && p is Asked ==> !t.running[index]
        }),
{
}

/// A worker waits for the answer to its access for as long as it takes, unless the
/// vCPUs are to stop; an answer that cannot come any more ends it.
pub proof fn answers_are_waited_for(p: Phase, s: SharedView, index: int)
    requires
        p is Awaiting,
    ensures
        ({
            let (q, t, action) = stepped(p, s, index, Input::Reply(Reply::Timeout));
            &&& t == s
            &&& s.stop ==> action == Action::Leave(Ok(()))
            &&& !s.stop ==> q == p && action is Listen
        }),
        stepped(p, s, index, Input::Reply(Reply::Gone)).2 == Action::Leave(Ok(())),
{
}

} // verus!

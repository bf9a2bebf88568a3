//! Why a vCPU left guest code, and what is done about it.
use crate::arm64::cpus::{Power, Shared, SharedView, NOT_SUPPORTED};
use crate::error::PlatformError;
use vstd::prelude::*;

verus! {

#[derive(Clone, Copy, Debug, PartialEq, Eq, Structural)]
pub struct Exception {
    pub syndrome: u64,
    pub virtual_address: u64,
    pub physical_address: u64,
}

#[derive(Clone, Copy, Debug, PartialEq, Eq, Structural)]
pub struct Exit {
    pub reason: u32,
    pub exception: Exception,
}

/// A vCPU as its worker knows it between two runs.
#[derive(Clone, Copy, Debug, PartialEq, Eq, Structural)]
pub struct Vcpu {
    pub id: u64,
    /// The program counter.
    pub pc: u64,
}

impl Vcpu {
    /// Goes on behind the instruction that was carried out for the guest.
    pub fn advance(&mut self)
        requires
            old(self).pc + 4 <= u64::MAX,
        ensures
            final(self).id == old(self).id,
            final(self).pc == old(self).pc + 4,
    {
        self.pc = self.pc + 4;
    }
}

/// The bits of `esr` from number `shift` on, as many as `span` counts.
pub open spec fn field(esr: u64, shift: int, span: int) -> int {
    esr as int / shift % span
}

/// Whether the bit of weight `weight` is set.
pub open spec fn bit(esr: u64, weight: int) -> bool {
    esr as int / weight % 2 == 1
}

/// An access to memory that no memory backs.
#[derive(Clone, Copy, Debug, PartialEq, Eq, Structural)]
pub struct Abort {
    pub address: u64,
    pub width: usize,
    /// The register that is read or written; 31 is none.
    pub reg: u32,
    pub write: bool,
    /// What is read is a signed number.
    pub signed: bool,
    /// The register is written in full.
    pub wide: bool,
}

impl Abort {
    /// The register whose value is written to the device; otherwise zero is.
    pub fn operand(&self) -> (r: Option<u32>)
        ensures
            r == if self.write && self.reg != 31 {
                Some(self.reg)
            } else {
                None
            },
    {
        if self.write && self.reg != 31 {
            Some(self.reg)
        } else {
            None
        }
    }
}

/// What a worker does about an exit.
#[derive(Clone, Copy, Debug, PartialEq, Eq, Structural)]
pub enum Trap {
    /// Nothing: the vCPU was told to leave.
    Kicked,
    /// A call of the firmware.
    Firmware,
    /// An access that a device answers.
    Access(Abort),
    /// A debug register is read as zero or its write ignored; `reg` is cleared
    /// where it is read. Then the instruction is passed over.
    Debug { reg: Option<u32> },
    /// The instruction is passed over.
    Idle,
    /// Nothing handles this exception.
    Unhandled { syndrome: u64, address: u64 },
}

/// The five bits of an instruction that name a register.
pub open spec fn register(v: int) -> u32 {
    (v % 32) as u32
}

/// The system register that an instruction names.
pub open spec fn sysreg_of(esr: u64) -> int {
    field(esr, 0x10_0000, 4) * 0x4000 + field(esr, 0x4000, 8) * 0x800 + field(esr, 0x400, 16) * 0x80
        + field(esr, 2, 16) * 8 + field(esr, 0x2_0000, 8)
}

/// The width of an access.
pub open spec fn width_of(esr: u64) -> usize {
    let size = field(esr, 0x40_0000, 4);
    if size == 0 {
        1
    } else if size == 1 {
        2
    } else if size == 2 {
        4
    } else {
        8
    }
}

/// What is done about an exit.
pub open spec fn trap_of(exit: Exit) -> Result<Trap, PlatformError> {
    let e = exit.exception;
    let esr = e.syndrome;
    let class = esr / 0x400_0000;
    if exit.reason == 0 {
        Ok(Trap::Kicked)
    } else if exit.reason != 1 {
        Err(PlatformError::UnexpectedHvfExit { reason: exit.reason, syndrome: esr })
    } else if class == 0x16 {
        Ok(Trap::Firmware)
    } else if class == 0x24 {
        if bit(esr, 0x100_0000) && !bit(esr, 0x80) && !bit(esr, 0x100) {
            Ok(
                Trap::Access(
                    Abort {
                        address: e.physical_address,
                        width: width_of(esr),
                        reg: register(esr as int / 0x1_0000),
                        write: bit(esr, 0x40),
                        signed: bit(esr, 0x20_0000),
                        wide: bit(esr, 0x8000),
                    },
                ),
            )
        } else {
            Err(PlatformError::UnsupportedDataAbort { syndrome: esr, address: e.physical_address })
        }
    } else if class == 0x18 {
        let sysreg = sysreg_of(esr);
        if sysreg == 0x8084 || sysreg == 0x808c || sysreg == 0x809c {
            let rt = register(esr as int / 0x20);
            Ok(
                Trap::Debug {
                    reg: if esr % 2 == 1 && rt != 31 {
                        Some(rt)
                    } else {
                        None
                    },
                },
            )
        } else {
            Err(PlatformError::UnsupportedSysreg { sysreg: sysreg as u64, esr })
        }
    } else if class == 1 {
        Ok(Trap::Idle)
    } else {
        Ok(Trap::Unhandled { syndrome: esr, address: e.physical_address })
    }
}

/// Decides what is done about an exit.
fn trap(exit: &Exit) -> (r: Result<Trap, PlatformError>)
    ensures
        r == trap_of(*exit),
{
    let e: Exception = exit.exception;
    let esr: u64 = e.syndrome;
    if exit.reason == 0 {
        return Ok(Trap::Kicked);
    }
    if exit.reason != 1 {
        return Err(PlatformError::UnexpectedHvfExit { reason: exit.reason, syndrome: esr });
    }
    let class: u64 = esr / 0x400_0000;
    if class == 0x16 {
        return Ok(Trap::Firmware);
    }
    if class == 0x24 {
        if !(esr / 0x100_0000 % 2 == 1 && esr / 0x80 % 2 != 1 && esr / 0x100 % 2 != 1) {
            return Err(
                PlatformError::UnsupportedDataAbort { syndrome: esr, address: e.physical_address },
            );
        }
        let size: u64 = esr / 0x40_0000 % 4;
        let width: usize = if size == 0 {
            1
        } else if size == 1 {
            2
        } else if size == 2 {
            4
        } else {
            8
        };
        return Ok(
            Trap::Access(
                Abort {
                    address: e.physical_address,
                    width,
                    reg: (esr / 0x1_0000 % 32) as u32,
                    write: esr / 0x40 % 2 == 1,
                    signed: esr / 0x20_0000 % 2 == 1,
                    wide: esr / 0x8000 % 2 == 1,
                },
            ),
        );
    }
    if class == 0x18 {
        let sysreg: u64 = (esr / 0x10_0000 % 4) * 0x4000 + (esr / 0x4000 % 8) * 0x800 + (esr / 0x400
            % 16) * 0x80 + (esr / 2 % 16) * 8 + esr / 0x2_0000 % 8;
        if !(sysreg == 0x8084 || sysreg == 0x808c || sysreg == 0x809c) {
            return Err(PlatformError::UnsupportedSysreg { sysreg, esr });
        }
        let rt: u32 = (esr / 0x20 % 32) as u32;
        return Ok(
            Trap::Debug {
                reg: if esr % 2 == 1 && rt != 31 {
                    Some(rt)
                } else {
                    None
                },
            },
        );
    }
    if class == 1 {
        return Ok(Trap::Idle);
    }
    Ok(Trap::Unhandled { syndrome: esr, address: e.physical_address })
}

/// What a worker does after it ran guest code: `None` is to leave for good. Once
/// the VM stops nothing else counts, not even that the run failed.
pub open spec fn after_run(s: SharedView, exit: Result<Exit, PlatformError>) -> Result<
    Option<Trap>,
    PlatformError,
> {
    if s.stop {
        Ok(None)
    } else {
        match exit {
            Err(e) => Err(e),
            Ok(exit) => match trap_of(exit) {
                Err(e) => Err(e),
                Ok(t) => Ok(Some(t)),
            },
        }
    }
}

/// Decides what a worker does after it ran guest code.
pub fn resolve(shared: &Shared, exit: Result<Exit, PlatformError>) -> (r: Result<
    Option<Trap>,
    PlatformError,
>)
    ensures
        r == after_run(shared@, exit),
{
    if shared.stop {
        return Ok(None);
    }
    match exit {
        Err(e) => Err(e),
        Ok(exit) => match trap(&exit) {
            Err(e) => Err(e),
            Ok(t) => Ok(Some(t)),
        },
    }
}

/// The number of values of `width` bytes.
pub open spec fn values(width: usize) -> int {
    if width == 1 {
        0x100
    } else if width == 2 {
        0x1_0000
    } else if width == 4 {
        0x1_0000_0000
    } else {
        0x1_0000_0000_0000_0000
    }
}

/// `value` as a signed number of `width` bytes, in 64 bits.
pub open spec fn sign_extended(value: u64, width: usize) -> u64 {
    let v = value as int % values(width);
    if v >= values(width) / 2 {
        (v + 0x1_0000_0000_0000_0000 - values(width)) as u64
    } else {
        v as u64
    }
}

/// The register that an answered read changes, and its new value.
pub open spec fn written_back(a: Abort, value: u64) -> Option<(u32, u64)> {
    if a.write || a.reg == 31 {
        None
    } else {
        let v = if a.signed {
            sign_extended(value, a.width)
        } else {
            value
        };
        Some(
            (
                a.reg,
                if a.wide {
                    v
                } else {
                    (v % 0x1_0000_0000) as u64
                },
            ),
        )
    }
}

fn extend(value: u64, width: usize) -> (r: u64)
    requires
        width == 1 || width == 2 || width == 4 || width == 8,
    ensures
        r == sign_extended(value, width),
{
    if width == 8 {
        return value;
    }
    let span: u64 = if width == 1 {
        0x100
    } else if width == 2 {
        0x1_0000
    } else {
        0x1_0000_0000
    };
    let v: u64 = value % span;
    if v >= span / 2 {
        (u64::MAX - span + 1) + v
    } else {
        v
    }
}

/// What an answered access writes back.
pub fn write_back(a: &Abort, value: u64) -> (r: Option<(u32, u64)>)
    requires
        a.width == 1 || a.width == 2 || a.width == 4 || a.width == 8,
    ensures
        r == written_back(*a, value),
{
    if a.write || a.reg == 31 {
        return None;
    }
    let v: u64 = if a.signed {
        extend(value, a.width)
    } else {
        value
    };
    Some(
        (
            a.reg,
            if a.wide {
                v
            } else {
                v % 0x1_0000_0000
            },
        ),
    )
}

/// What a call of the firmware leads to.
#[derive(Clone, Copy, Debug, PartialEq, Eq, Structural)]
pub enum Firmware {
    /// The vCPU goes on with this answer in its first register.
    Answer(i64),
    /// The vCPU is off.
    Off,
    /// The VM ends: the run thread is told, and every worker stops.
    Shutdown,
}

/// The lower half of an argument, unless the call is a wide one.
pub open spec fn argument(function: u64, v: u64) -> u64 {
    if bit(function, 0x4000_0000) {
        v
    } else {
        v % 0x1_0000_0000
    }
}

/// What a PSCI call by vCPU number `index` leads to, and the state after it.
pub open spec fn firmware_call(s: SharedView, index: int, function: u64, args: Seq<u64>) -> (
    SharedView,
    Firmware,
) {
    let a = argument(function, args[0]);
    let b = argument(function, args[1]);
    let c = argument(function, args[2]);
    if function == 0x8400_0000 {
        (s, Firmware::Answer(2))
    } else if function == 0x8400_0002 {
        (
            SharedView { power: s.power.update(index, Power::Off), ..s },
            Firmware::Off,
        )
    } else if function == 0x8400_0003 || function == 0xc400_0003 {
        (s.started_cpu(a, b, c).0, Firmware::Answer(s.started_cpu(a, b, c).1))
    } else if function == 0x8400_0004 || function == 0xc400_0004 {
        (s, Firmware::Answer(s.affinity_of(a, b)))
    } else if function == 0x8400_0006 {
        (s, Firmware::Answer(2))
    } else if function == 0x8400_0008 || function == 0x8400_0009 {
        (s, Firmware::Shutdown)
    } else {
        (s, Firmware::Answer(NOT_SUPPORTED))
    }
}

/// How many arguments a PSCI call has.
pub open spec fn arguments_of(function: u64) -> usize {
    if function == 0x8400_0003 || function == 0xc400_0003 {
        3
    } else if function == 0x8400_0004 || function == 0xc400_0004 {
        2
    } else {
        0
    }
}

/// Tells how many registers besides the function a PSCI call reads.
pub fn argument_count(function: u64) -> (r: usize)
    ensures
        r == arguments_of(function),
{
    if function == 0x8400_0003 || function == 0xc400_0003 {
        3
    } else if function == 0x8400_0004 || function == 0xc400_0004 {
        2
    } else {
        0
    }
}

/// Carries out a PSCI call: `args` are the registers that follow the function.
pub fn call_firmware(shared: &mut Shared, index: usize, function: u64, args: [u64; 3]) -> (r:
    Firmware)
    requires
        old(shared)@.wf(),
        index < old(shared)@.power.len(),
    ensures
        (final(shared)@, r) == firmware_call(old(shared)@, index as int, function, args@),
        final(shared)@.wf(),
{
    let wide: bool = function / 0x4000_0000 % 2 == 1;
    let a: u64 = if wide {
        args[0]
    } else {
        args[0] % 0x1_0000_0000
    };
    let b: u64 = if wide {
        args[1]
    } else {
        args[1] % 0x1_0000_0000
    };
    let c: u64 = if wide {
        args[2]
    } else {
        args[2] % 0x1_0000_0000
    };
    if function == 0x8400_0000 || function == 0x8400_0006 {
        Firmware::Answer(2)
    } else if function == 0x8400_0002 {
        shared.off(index);
        Firmware::Off
    } else if function == 0x8400_0003 || function == 0xc400_0003 {
        Firmware::Answer(shared.on(a, b, c))
    } else if function == 0x8400_0004 || function == 0xc400_0004 {
        Firmware::Answer(shared.affinity(a, b))
    } else if function == 0x8400_0008 || function == 0x8400_0009 {
        Firmware::Shutdown
    } else {
        Firmware::Answer(NOT_SUPPORTED)
    }
}

/// The registers that are set before a vCPU starts at `entry`, in order, and
/// what each is set to.
pub open spec fn boot_values(entry: u64, context: u64) -> Seq<(u32, u64)> {
    Seq::new(31, |i: int| (i as u32, 0u64)) + seq![
        (34u32, 0x3c5u64),
        (31u32, entry),
        (0u32, context),
    ]
}

/// The registers that a vCPU starts with at `entry`: everything is zero but the
/// program counter, the state with interrupts masked, and the context.
pub fn boot_registers(entry: u64, context: u64) -> (r: Vec<(u32, u64)>)
    ensures
        r@ == boot_values(entry, context),
{
    let mut out: Vec<(u32, u64)> = Vec::new();
    let mut reg: u32 = 0;
    while reg < 31
        invariant
            reg <= 31,
            out@ =~= Seq::new(reg as nat, |i: int| (i as u32, 0u64)),
        decreases 31 - reg,
    {
        out.push((reg, 0));
        reg = reg + 1;
    }
    out.push((34, 0x3c5));
    out.push((31, entry));
    out.push((0, context));
    assert(out@ =~= Seq::new(31, |i: int| (i as u32, 0u64)) + seq![
        (34u32, 0x3c5u64),
        (31u32, entry),
        (0u32, context),
    ]);
    out
}

/// A PSCI call looks at no more arguments than it has.
pub proof fn calls_ignore_other_arguments(
    s: SharedView,
    index: int,
    function: u64,
    a: Seq<u64>,
    b: Seq<u64>,
)
    requires
        a.len() == 3,
        b.len() == 3,
        a.take(arguments_of(function) as int) == b.take(arguments_of(function) as int),
    ensures
        firmware_call(s, index, function, a) == firmware_call(s, index, function, b),
{
    let n = arguments_of(function) as int;
    assert forall|i: int| 0 <= i < n implies a[i] == b[i] by {
        assert(a.take(n)[i] == b.take(n)[i]);
    }
}

/// A signed read keeps the value of what was read, whatever stands above it.
pub proof fn sign_extension_keeps_the_value(value: u64, width: usize)
    requires
        width == 1 || width == 2 || width == 4 || width == 8,
    ensures
        sign_extended(value, width) as int % values(width) == value as int % values(width),
        value as int % values(width) < values(width) / 2 ==> sign_extended(value, width)
            == value as int % values(width),
{
}

} // verus!

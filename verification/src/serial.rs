//! The guest UART and its caller-provided host side, on the VMM thread.
use crate::error::{says, Failure, SerialError};
use crate::math::through;
use vm_superio::serial::{NoEvents, SerialState};
use vm_superio::{Serial, Trigger};
use vstd::prelude::*;

verus! {

/// Bytes that the receive buffer of the UART holds.
pub const FIFO_SIZE: usize = 64;

/// What the UART's interrupt line does by itself: nothing. The runtime reads
/// the line after each turn.
struct Irq;

impl Trigger for Irq {
    type E = ();

    /// Never fails, so neither does a UART on account of its interrupt.
    fn trigger(&self) -> (r: Result<(), ()>)
        ensures
            r == Ok::<(), ()>(()),
    {
        Ok(())
    }
}

/// The registers of the UART.
#[derive(Clone, Copy, Debug, PartialEq, Eq, Structural)]
pub struct Registers {
    pub baud_divisor_low: u8,
    pub baud_divisor_high: u8,
    pub interrupt_enable: u8,
    pub interrupt_identification: u8,
    pub line_control: u8,
    pub line_status: u8,
    pub modem_control: u8,
    pub modem_status: u8,
    pub scratch: u8,
}

/// A 16550A UART.
pub struct Uart {
    pub registers: Registers,
    /// Received bytes that the guest has not read yet, the oldest first.
    pub input: Vec<u8>,
}

/// The UART as plain values.
#[verifier::ext_equal]
pub struct UartView {
    pub registers: Registers,
    pub input: Seq<u8>,
}

impl View for Uart {
    type V = UartView;

    open spec fn view(&self) -> UartView {
        UartView { registers: self.registers, input: self.input@ }
    }
}

impl UartView {
    pub open spec fn wf(self) -> bool {
        self.input.len() <= FIFO_SIZE
    }

    /// Offsets 0 and 1 address the baud divisor.
    pub open spec fn divisor(self) -> bool {
        self.registers.line_control & 0x80 != 0
    }

    /// What the guest sends comes back to it.
    pub open spec fn looped(self) -> bool {
        self.registers.modem_control & 0x10 != 0
    }

    /// The register at `offset` is the data register.
    pub open spec fn data(self, offset: u8) -> bool {
        offset == 0 && !self.divisor()
    }

    /// A byte written at `offset` is sent to the host.
    pub open spec fn sends(self, offset: u8) -> bool {
        self.data(offset) && !self.looped()
    }

    /// The byte that the data register gives next.
    pub open spec fn next(self) -> u8 {
        if self.input.len() > 0 {
            self.input[0]
        } else {
            0
        }
    }

    /// The received bytes after one was read.
    pub open spec fn rest(self) -> Seq<u8> {
        if self.input.len() > 0 {
            self.input.skip(1)
        } else {
            self.input
        }
    }

    /// An interrupt is pending.
    pub open spec fn pending(self) -> bool {
        self.registers.interrupt_identification & 1 == 0
    }
}

/// The UART and the bytes it sends after a register was written.
pub uninterp spec fn uart_written(u: UartView, offset: u8, value: u8) -> (UartView, Seq<u8>);

/// The UART and the value of a register that was read.
pub uninterp spec fn uart_read(u: UartView, offset: u8) -> (UartView, u8);

/// The UART after bytes were received.
pub uninterp spec fn uart_received(u: UartView, bytes: Seq<u8>) -> UartView;

/// A UART after a register was written, and what it sends.
struct Written {
    uart: Uart,
    sent: Vec<u8>,
}

/// A UART after a register was read, and its value.
struct Fetched {
    uart: Uart,
    value: u8,
}

/// `vm_superio::Serial::write` on a UART in this state, with an output that
/// keeps what is sent. A byte written to the data register is sent, unless the
/// divisor is addressed or the UART is looped back; nothing else is sent. The
/// received bytes change only in loopback, and stay within the buffer.
#[verifier::external_body]
fn serial_write(u: &Uart, offset: u8, value: u8) -> (r: Written)
    requires
        u@.wf(),
    ensures
        r.uart@ == uart_written(u@, offset, value).0,
        r.sent@ == uart_written(u@, offset, value).1,
        r.uart@.wf(),
        r.sent@ == if u@.sends(offset) {
            seq![value]
        } else {
            Seq::empty()
        },
        !u@.looped() ==> r.uart@.input == u@.input,
{
    let Registers { baud_divisor_low, baud_divisor_high, interrupt_enable,
        interrupt_identification, line_control, line_status, modem_control, modem_status,
        scratch } = u.registers;
    let state = SerialState { baud_divisor_low, baud_divisor_high, interrupt_enable,
        interrupt_identification, line_control, line_status, modem_control, modem_status, scratch,
        in_buffer: u.input.clone() };
    let mut serial = Serial::from_state(&state, Irq, NoEvents, Vec::new()).unwrap();
    let _ = serial.write(offset, value);
    let SerialState { baud_divisor_low, baud_divisor_high, interrupt_enable,
        interrupt_identification, line_control, line_status, modem_control, modem_status, scratch,
        in_buffer: input } = serial.state();
    Written { uart: Uart { registers: Registers { baud_divisor_low, baud_divisor_high, interrupt_enable,
        interrupt_identification, line_control, line_status, modem_control, modem_status, scratch },
        input }, sent: serial.into_writer() }
}

/// `vm_superio::Serial::read` on a UART in this state. Reading the data register
/// takes the oldest received byte, or gives zero where there is none; other
/// registers leave the received bytes alone.
#[verifier::external_body]
fn serial_read(u: &Uart, offset: u8) -> (r: Fetched)
    requires
        u@.wf(),
    ensures
        r.uart@ == uart_read(u@, offset).0,
        r.value == uart_read(u@, offset).1,
        r.uart@.input == if u@.data(offset) {
            u@.rest()
        } else {
            u@.input
        },
        u@.data(offset) ==> r.value == u@.next(),
{
    let Registers { baud_divisor_low, baud_divisor_high, interrupt_enable,
        interrupt_identification, line_control, line_status, modem_control, modem_status,
        scratch } = u.registers;
    let state = SerialState { baud_divisor_low, baud_divisor_high, interrupt_enable,
        interrupt_identification, line_control, line_status, modem_control, modem_status, scratch,
        in_buffer: u.input.clone() };
    let mut serial = Serial::from_state(&state, Irq, NoEvents, Vec::new()).unwrap();
    let value = serial.read(offset);
    let SerialState { baud_divisor_low, baud_divisor_high, interrupt_enable,
        interrupt_identification, line_control, line_status, modem_control, modem_status, scratch,
        in_buffer: input } = serial.state();
    Fetched { uart: Uart { registers: Registers { baud_divisor_low, baud_divisor_high, interrupt_enable,
        interrupt_identification, line_control, line_status, modem_control, modem_status, scratch },
        input }, value }
}

/// `vm_superio::Serial::enqueue_raw_bytes` on a UART in this state, for bytes
/// that its buffer has room for: they follow those received before. A UART that
/// is looped back drops them.
#[verifier::external_body]
fn serial_enqueue_raw_bytes(u: &Uart, bytes: &[u8]) -> (r: Uart)
    requires
        u@.input.len() + bytes@.len() <= FIFO_SIZE,
    ensures
        r@ == uart_received(u@, bytes@),
        r@.input == if u@.looped() {
            u@.input
        } else {
            u@.input + bytes@
        },
{
    let Registers { baud_divisor_low, baud_divisor_high, interrupt_enable,
        interrupt_identification, line_control, line_status, modem_control, modem_status,
        scratch } = u.registers;
    let state = SerialState { baud_divisor_low, baud_divisor_high, interrupt_enable,
        interrupt_identification, line_control, line_status, modem_control, modem_status, scratch,
        in_buffer: u.input.clone() };
    let mut serial = Serial::from_state(&state, Irq, NoEvents, Vec::new()).unwrap();
    let _ = serial.enqueue_raw_bytes(bytes);
    let SerialState { baud_divisor_low, baud_divisor_high, interrupt_enable,
        interrupt_identification, line_control, line_status, modem_control, modem_status, scratch,
        in_buffer: input } = serial.state();
    Uart { registers: Registers { baud_divisor_low, baud_divisor_high, interrupt_enable,
        interrupt_identification, line_control, line_status, modem_control, modem_status, scratch },
        input }
}

/// Why a host device did not do what it was asked.
#[derive(Clone, Copy, Debug, PartialEq, Eq, Structural)]
pub enum IoKind {
    WouldBlock,
    Interrupted,
    BrokenPipe,
    InvalidData,
    Other,
}

/// A failure of the host side of the UART.
#[derive(Debug)]
pub struct IoFault {
    pub kind: IoKind,
    pub source: Failure,
}

/// One call of the host side of the UART, and its outcome.
#[allow(inconsistent_fields)]
pub enum SerialCall {
    /// Whether a stop was wanted.
    Stop { answer: bool },
    /// Input was asked for; `data` is the buffer afterwards.
    Recv { capacity: nat, data: Seq<u8>, result: Result<usize, IoFault> },
    /// Output was to be written in full.
    Write { data: Seq<u8>, result: Result<(), IoFault> },
    /// Output was to be made visible.
    Flush { result: Result<(), IoFault> },
}

/// Host side of the guest UART. No `Send` or `Sync` bound is required.
/// Output is synchronous; its errors terminate the VM.
///
/// Only proofs look at the ghost functions: an implementation that stands
/// outside them may leave them out.
pub trait SerialIo {
    /// The calls so far, the latest last.
    open spec fn calls(&self) -> Seq<SerialCall> {
        arbitrary()
    }

    /// Nonblocking input for the guest. Returns at most `buffer.len()`, the
    /// number of bytes put into the buffer. Zero (including end of input),
    /// `WouldBlock` and `Interrupted` mean no input now. Other errors terminate
    /// the VM and run its disk cleanup.
    fn recv(&mut self, buffer: &mut Vec<u8>) -> (r: Result<usize, IoFault>)
        ensures
            final(buffer)@.len() == old(buffer)@.len(),
            final(self).calls() == old(self).calls().push(
                SerialCall::Recv {
                    capacity: old(buffer)@.len(),
                    data: final(buffer)@,
                    result: r,
                },
            ),
    ;

    fn write_all(&mut self, data: &[u8]) -> (r: Result<(), IoFault>)
        ensures
            final(self).calls() == old(self).calls().push(
                SerialCall::Write { data: data@, result: r },
            ),
    ;

    fn flush(&mut self) -> (r: Result<(), IoFault>)
        ensures
            final(self).calls() == old(self).calls().push(SerialCall::Flush { result: r }),
    ;

    /// Requests a clean stop independently of input availability or space.
    fn should_stop(&mut self) -> (r: bool)
        ensures
            final(self).calls() == old(self).calls().push(SerialCall::Stop { answer: r }),
    ;
}

impl<T: SerialIo + ?Sized> SerialIo for Box<T> {
    open spec fn calls(&self) -> Seq<SerialCall> {
        (**self).calls()
    }

    fn recv(&mut self, buffer: &mut Vec<u8>) -> (r: Result<usize, IoFault>) {
        (**self).recv(buffer)
    }

    fn write_all(&mut self, data: &[u8]) -> (r: Result<(), IoFault>) {
        (**self).write_all(data)
    }

    fn flush(&mut self) -> (r: Result<(), IoFault>) {
        (**self).flush()
    }

    fn should_stop(&mut self) -> (r: bool) {
        (**self).should_stop()
    }
}

/// What was received from the host: how many bytes, or why the VM ends.
pub open spec fn received(
    result: Result<usize, IoFault>,
    capacity: nat,
    r: Result<usize, IoFault>,
) -> bool {
    match result {
        Ok(count) => if count <= capacity {
            r == Ok::<usize, IoFault>(count)
        } else {
            r matches Err(e) && e.kind == IoKind::InvalidData && says(
                e.source,
                "serial recv returned more bytes than buffer capacity"@,
            )
        },
        Err(e) => if e.kind == IoKind::WouldBlock || e.kind == IoKind::Interrupted {
            r == Ok::<usize, IoFault>(0)
        } else {
            r == Err::<usize, IoFault>(e)
        },
    }
}

/// Polling the host for input: a wanted stop is seen first and last, and input
/// is asked for where there is room.
pub open spec fn poll_rel(
    u0: UartView,
    c0: Seq<SerialCall>,
    u1: UartView,
    c1: Seq<SerialCall>,
    r: Result<bool, SerialError>,
) -> bool {
    let room = (FIFO_SIZE - u0.input.len()) as nat;
    let begun = c0.push(SerialCall::Stop { answer: false });
    ||| {
        &&& c1 == c0.push(SerialCall::Stop { answer: true })
        &&& u1 == u0
        &&& r == Ok::<bool, SerialError>(true)
    }
    ||| {
        &&& room == 0
        &&& u1 == u0
        &&& r is Ok
        &&& c1 == begun.push(SerialCall::Stop { answer: r->Ok_0 })
    }
    ||| {
        &&& room > 0
        &&& exists|data: Seq<u8>, result: Result<usize, IoFault>, n: Result<usize, IoFault>|
            #[trigger] through((data, result, n)) && received(result, room, n) && {
                let asked = begun.push(SerialCall::Recv { capacity: room, data, result });
                match n {
                    Err(e) => c1 == asked && u1 == u0 && r == Err::<bool, SerialError>(
                        SerialError::Io(e),
                    ),
                    Ok(count) => {
                        &&& data.len() == room
                        &&& r is Ok
                        &&& c1 == asked.push(SerialCall::Stop { answer: r->Ok_0 })
                        &&& u1 == if count == 0 {
                            u0
                        } else {
                            uart_received(u0, data.take(count as int))
                        }
                        &&& u1.input == if u0.looped() {
                            u0.input
                        } else {
                            u0.input + data.take(count as int)
                        }
                    },
                }
            }
    }
}

/// Writing a register of the UART: what it sends goes to the host, and is made
/// visible at once. The register is written even where that fails.
pub open spec fn output_rel(
    u0: UartView,
    c0: Seq<SerialCall>,
    offset: u8,
    value: u8,
    u1: UartView,
    c1: Seq<SerialCall>,
    r: Result<(), SerialError>,
) -> bool {
    let (u, sent) = uart_written(u0, offset, value);
    &&& u1 == u
    &&& !u0.looped() ==> u1.input == u0.input
    &&& sent == if u0.sends(offset) {
        seq![value]
    } else {
        Seq::empty()
    }
    &&& if sent.len() == 0 {
        c1 == c0 && r == Ok::<(), SerialError>(())
    } else {
        exists|w: Result<(), IoFault>, f: Result<(), IoFault>|
            #[trigger] through((w, f)) && {
                let wrote = c0.push(SerialCall::Write { data: sent, result: w });
                match w {
                    Err(e) => c1 == wrote && r == Err::<(), SerialError>(SerialError::Uart(e)),
                    Ok(_) => {
                        &&& c1 == wrote.push(SerialCall::Flush { result: f })
                        &&& r == match f {
                            Ok(_) => Ok::<(), SerialError>(()),
                            Err(e) => Err(SerialError::Uart(e)),
                        }
                    },
                }
            }
    }
}

impl Uart {
    /// A UART after power-up.
    pub fn new() -> (r: Uart)
        ensures
            r@ == (UartView {
                registers: Registers {
                    baud_divisor_low: 0x0c,
                    baud_divisor_high: 0,
                    interrupt_enable: 0,
                    interrupt_identification: 1,
                    line_control: 3,
                    line_status: 0x60,
                    modem_control: 8,
                    modem_status: 0xb0,
                    scratch: 0,
                },
                input: Seq::empty(),
            }),
            r@.wf(),
    {
        Uart {
            registers: Registers {
                baud_divisor_low: 0x0c,
                baud_divisor_high: 0,
                interrupt_enable: 0,
                interrupt_identification: 1,
                line_control: 3,
                line_status: 0x60,
                modem_control: 8,
                modem_status: 0xb0,
                scratch: 0,
            },
            input: Vec::new(),
        }
    }

    /// How many more bytes can be received.
    pub fn fifo_capacity(&self) -> (r: usize)
        requires
            self@.wf(),
        ensures
            r == FIFO_SIZE - self@.input.len(),
    {
        FIFO_SIZE - self.input.len()
    }

    /// Whether the UART asserts its interrupt line.
    pub fn interrupt_pending(&self) -> (r: bool)
        ensures
            r == self@.pending(),
    {
        self.registers.interrupt_identification & 1 == 0
    }

    /// Receives bytes that there is room for.
    pub fn enqueue_raw_bytes(&mut self, bytes: &[u8])
        requires
            old(self)@.input.len() + bytes@.len() <= FIFO_SIZE,
        ensures
            final(self)@ == uart_received(old(self)@, bytes@),
            final(self)@.wf(),
            final(self)@.input == if old(self)@.looped() {
                old(self)@.input
            } else {
                old(self)@.input + bytes@
            },
    {
        *self = serial_enqueue_raw_bytes(self, bytes);
    }

    /// Reads a register.
    pub fn read(&mut self, offset: u8) -> (r: u8)
        requires
            old(self)@.wf(),
        ensures
            uart_read(old(self)@, offset) == (final(self)@, r),
            final(self)@.wf(),
            final(self)@.input == if old(self)@.data(offset) {
                old(self)@.rest()
            } else {
                old(self)@.input
            },
            old(self)@.data(offset) ==> r == old(self)@.next(),
    {
        let r: Fetched = serial_read(self, offset);
        *self = r.uart;
        r.value
    }

    /// Writes a register, and sends what comes of it.
    pub fn write<SI: SerialIo>(&mut self, offset: u8, value: u8, io: &mut SI) -> (r: Result<
        (),
        SerialError,
    >)
        requires
            old(self)@.wf(),
        ensures
            final(self)@.wf(),
            output_rel(
                old(self)@,
                old(io).calls(),
                offset,
                value,
                final(self)@,
                final(io).calls(),
                r,
            ),
            uart_written(old(self)@, offset, value).1 == if old(self)@.sends(offset) {
                seq![value]
            } else {
                Seq::empty()
            },
    {
        let Written { uart, sent } = serial_write(self, offset, value);
        *self = uart;
        if sent.len() == 0 {
            return Ok(());
        }
        let w: Result<(), IoFault> = io.write_all(sent.as_slice());
        let ghost first = w;
        match w {
            Err(e) => {
                assert(through((first, first)));
                Err(SerialError::Uart(e))
            },
            Ok(_) => {
                let f: Result<(), IoFault> = io.flush();
                assert(through((first, f)));
                match f {
                    Ok(_) => Ok(()),
                    Err(e) => Err(SerialError::Uart(e)),
                }
            },
        }
    }
}

/// How many bytes were received.
fn received_count(result: Result<usize, IoFault>, capacity: usize) -> (r: Result<usize, IoFault>)
    ensures
        received(result, capacity as nat, r),
{
    match result {
        Ok(count) => {
            if count > capacity {
                let mut chain: Vec<String> = Vec::new();
                chain.push("serial recv returned more bytes than buffer capacity".to_owned());
                return Err(IoFault { kind: IoKind::InvalidData, source: Failure { chain } });
            }
            Ok(count)
        },
        Err(e) => match e.kind {
            IoKind::WouldBlock => Ok(0),
            IoKind::Interrupted => Ok(0),
            _ => Err(e),
        },
    }
}

/// Polls once, and returns whether the host side requests a stop.
pub fn poll_input<SI: SerialIo>(uart: &mut Uart, io: &mut SI) -> (r: Result<bool, SerialError>)
    requires
        old(uart)@.wf(),
    ensures
        final(uart)@.wf(),
        poll_rel(old(uart)@, old(io).calls(), final(uart)@, final(io).calls(), r),
{
    let ghost u0 = uart@;
    let ghost c0 = io.calls();
    if io.should_stop() {
        return Ok(true);
    }
    let capacity: usize = uart.fifo_capacity();
    if capacity != 0 {
        let mut buffer: Vec<u8> = Vec::new();
        let mut i: usize = 0;
        while i < capacity
            invariant
                i <= capacity,
                buffer@.len() == i,
            decreases capacity - i,
        {
            buffer.push(0);
            i = i + 1;
        }
        let result: Result<usize, IoFault> = io.recv(&mut buffer);
        let ghost answer = result;
        let n: Result<usize, IoFault> = received_count(result, capacity);
        assert(through((buffer@, answer, n)));
        let count: usize = match n {
            Ok(count) => count,
            Err(e) => {
                return Err(SerialError::Io(e));
            },
        };
        if count != 0 {
            let bytes: &[u8] = vstd::slice::slice_subrange(buffer.as_slice(), 0, count);
            assert(bytes@ =~= buffer@.take(count as int));
            uart.enqueue_raw_bytes(bytes);
        }
        assert(u0.input + buffer@.take(0) =~= u0.input);
    }
    Ok(io.should_stop())
}

} // verus!

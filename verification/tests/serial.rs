//! The UART and its host side.
use std::cell::Cell;
use std::collections::VecDeque;
use std::rc::Rc;
use vm_superio::serial::NoEvents;
use vm_superio::{Serial, Trigger};
use w_vmm::error::{Failure, SerialError};
use w_vmm::serial::{poll_input, IoFault, IoKind, SerialIo, Uart, FIFO_SIZE};

#[derive(Default)]
struct Memory {
    input: VecDeque<u8>,
    output: Vec<u8>,
    capacities: Vec<usize>,
    stop: Rc<Cell<bool>>,
    read_error: Option<IoKind>,
    write_error: Option<IoKind>,
    flush_error: Option<IoKind>,
    invalid_length: bool,
    stop_on_recv: bool,
}

fn fault(kind: IoKind) -> IoFault {
    IoFault { kind, source: Failure { chain: vec![format!("{kind:?}")] } }
}

impl SerialIo for Memory {
    fn recv(&mut self, buffer: &mut Vec<u8>) -> Result<usize, IoFault> {
        self.capacities.push(buffer.len());
        if let Some(kind) = self.read_error {
            return Err(fault(kind));
        }
        if self.invalid_length {
            return Ok(buffer.len() + 1);
        }
        if self.stop_on_recv {
            self.stop.set(true);
        }
        let count = buffer.len().min(self.input.len());
        for byte in &mut buffer[..count] {
            *byte = self.input.pop_front().unwrap();
        }
        Ok(count)
    }

    fn write_all(&mut self, bytes: &[u8]) -> Result<(), IoFault> {
        if let Some(kind) = self.write_error {
            return Err(fault(kind));
        }
        self.output.extend_from_slice(bytes);
        Ok(())
    }

    fn flush(&mut self) -> Result<(), IoFault> {
        self.flush_error.map_or(Ok(()), |kind| Err(fault(kind)))
    }

    fn should_stop(&mut self) -> bool {
        self.stop.get()
    }
}

#[test]
fn bytes_capacity_and_stop_with_full_fifo() {
    let mut uart = Uart::new();
    let mut io = Memory::default();
    let capacity = uart.fifo_capacity();
    let bytes: Vec<_> = (0..capacity + 3).map(|i| i as u8).collect();
    io.input.extend(&bytes);
    assert!(!poll_input(&mut uart, &mut io).unwrap());
    assert_eq!(uart.fifo_capacity(), 0);
    assert!(!poll_input(&mut uart, &mut io).unwrap());
    assert_eq!(io.capacities, [capacity]);
    assert_eq!(uart.read(0), bytes[0]);
    assert!(!poll_input(&mut uart, &mut io).unwrap());
    assert_eq!(io.capacities, [capacity, 1]);
    for byte in &bytes[1..=capacity] {
        assert_eq!(uart.read(0), *byte);
    }
    io.input.clear();
    io.input.push_back(0x1d);
    assert!(!poll_input(&mut uart, &mut io).unwrap());
    assert_eq!(uart.read(0), 0x1d);
    for byte in b"guest output" {
        uart.write(0, *byte, &mut io).unwrap();
    }
    assert_eq!(io.output, b"guest output");
    uart.enqueue_raw_bytes(&vec![0; capacity]);
    io.stop.set(true);
    assert!(poll_input(&mut uart, &mut io).unwrap());
}

#[test]
fn empty_transient_and_fatal_input() {
    let mut uart = Uart::new();
    let mut io = Memory::default();
    for kind in [None, Some(IoKind::WouldBlock), Some(IoKind::Interrupted)] {
        io.read_error = kind;
        assert!(!poll_input(&mut uart, &mut io).unwrap());
    }
    io.read_error = Some(IoKind::BrokenPipe);
    assert!(matches!(
        poll_input(&mut uart, &mut io),
        Err(SerialError::Io(e)) if e.kind == IoKind::BrokenPipe && e.source.chain == ["BrokenPipe"]
    ));
    io.read_error = None;
    io.invalid_length = true;
    assert!(matches!(
        poll_input(&mut uart, &mut io),
        Err(SerialError::Io(e)) if e.kind == IoKind::InvalidData
            && e.source.chain == ["serial recv returned more bytes than buffer capacity"]
    ));
}

#[test]
fn output_errors() {
    for flush in [false, true] {
        let mut io = Memory::default();
        if flush {
            io.flush_error = Some(IoKind::BrokenPipe);
        } else {
            io.write_error = Some(IoKind::BrokenPipe);
        }
        let mut uart = Uart::new();
        assert!(matches!(
            uart.write(0, b'x', &mut io),
            Err(SerialError::Uart(e)) if e.kind == IoKind::BrokenPipe
        ));
    }
}

#[test]
fn non_send_trait_object_and_stop_during_recv() {
    let mut io: Box<Memory> = Box::new(Memory { stop_on_recv: true, ..Memory::default() });
    let mut uart = Uart::new();
    assert!(poll_input(&mut uart, &mut io).unwrap());
}

struct Quiet;

impl Trigger for Quiet {
    type E = ();

    fn trigger(&self) -> Result<(), ()> {
        Ok(())
    }
}

#[test]
fn power_up_state_is_that_of_the_model() {
    let model: Serial<Quiet, NoEvents, Vec<u8>> = Serial::new(Quiet, Vec::new());
    let state = model.state();
    let r = Uart::new().registers;
    assert_eq!(
        (
            state.baud_divisor_low,
            state.baud_divisor_high,
            state.interrupt_enable,
            state.interrupt_identification,
            state.line_control,
            state.line_status,
            state.modem_control,
            state.modem_status,
            state.scratch,
        ),
        (
            r.baud_divisor_low,
            r.baud_divisor_high,
            r.interrupt_enable,
            r.interrupt_identification,
            r.line_control,
            r.line_status,
            r.modem_control,
            r.modem_status,
            r.scratch,
        )
    );
    assert!(state.in_buffer.is_empty());
    assert_eq!(model.fifo_capacity(), FIFO_SIZE);
}

#[test]
fn registers_follow_the_model() {
    let mut io = Memory::default();
    let mut uart = Uart::new();
    let mut model: Serial<Quiet, NoEvents, Vec<u8>> = Serial::new(Quiet, Vec::new());
    for (offset, value) in
        [(1, 3), (7, 0x5a), (0, b'a'), (3, 0x83), (0, 9), (1, 1), (3, 3), (4, 0x18), (0, b'l'), (4, 8)]
    {
        uart.write(offset, value, &mut io).unwrap();
        model.write(offset, value).unwrap();
        for register in 1..8 {
            assert_eq!(uart.read(register), model.read(register), "register {register}");
        }
        assert_eq!(uart.interrupt_pending(), model.state().interrupt_identification & 1 == 0);
    }
    // The looped byte comes back as input, and was not sent.
    assert_eq!(uart.read(0), b'l');
    assert_eq!(model.read(0), b'l');
    assert_eq!(io.output, b"a");
    assert_eq!(model.writer(), b"a");
}

#[test]
fn received_bytes_raise_the_line() {
    let mut io = Memory::default();
    let mut uart = Uart::new();
    uart.write(1, 1, &mut io).unwrap();
    assert!(!uart.interrupt_pending());
    uart.enqueue_raw_bytes(b"xy");
    assert!(uart.interrupt_pending());
    assert_eq!(uart.read(5) & 1, 1);
    assert_eq!(uart.read(0), b'x');
    assert_eq!(uart.read(0), b'y');
    assert_eq!(uart.read(0), 0);
    assert_eq!(uart.read(5) & 1, 0);
}

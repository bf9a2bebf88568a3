//! What a running machine does for its guest: accesses reach the device they
//! name, every device is looked after, and interrupts follow what the devices say.
use crate::control::Operation;
use crate::devices::chains::{buffers_in, lent_memory_is_pinned, ring_at};
use crate::devices::memory::{
    asked, change_rel, chosen, decide, failed_at, granted, list_rel, no_request, process_rel,
    request_rel, served, settled, snapshot, turn_rel, turns_rel, undoing, Machine, MemView,
    Verdict,
};
use crate::devices::mmio::{window, write_rel, Mmio, MmioView, VirtioDevice};
use crate::devices::queues::{available_rel, pinned_rel, pop_rel, QueuesView};
use crate::devices::Device;
use crate::disks::name_bytes;
use crate::error::{DeviceError, Error, MemoryError, PlatformError, RuntimeError, SerialError};
use crate::guest::{ordered, Access, Memory, Piece};
use crate::math::through;
use crate::memory::MemoryStatus;
use crate::net::NetDevice;
use crate::platform::{
    DeviceRequirements, Event, IoAccess, IoRegion, MachineLayout, VirtualMachine, VmCall, VmConfig,
};
use crate::ring::Descriptor;
use crate::runtime::{
    access_rel, all_pins_rel, answered, assembled, assembly_error, carried_rel, devices_rel,
    flushes_rel, inside, irqs_rel, joined, lifted, plug_rel, poll_one, polls_rel, quiesce_rel,
    route, slot_of, sync_rel, tend_rel, Progress, Route, Runtime, Tending, Turn, Whole,
};
use crate::serial::{output_rel, poll_rel, received, IoFault, SerialCall, UartView};
use crate::storage::BlockStorage;
use vstd::prelude::*;

verus! {

/// The byte at `x` belongs to `region`.
pub open spec fn has(region: IoRegion, x: int) -> bool {
    region.address <= x < region.address + region.size
}

/// All of the bytes that the access names are registers of `region`.
pub open spec fn names<C>(a: IoAccess<C>, region: IoRegion) -> bool {
    &&& a.space == region.space
    &&& a.address + a.width <= u64::MAX
    &&& forall|x: int| a.address <= x < a.address + a.width ==> #[trigger] has(region, x)
}

proof fn lemma_names<C>(a: IoAccess<C>, region: IoRegion)
    requires
        a.width > 0,
    ensures
        names(a, region) <==> inside(region, a),
{
    if names(a, region) {
        let x = a.address as int;
        let y = a.address + a.width - 1;
        assert(has(region, x));
        assert(has(region, y));
    }
}

proof fn lemma_slot<C>(regions: Seq<IoRegion>, a: IoAccess<C>, i: int, from: int)
    requires
        0 <= from <= i < regions.len(),
        a.width > 0,
        names(a, regions[i]),
        forall|j: int|
            0 <= j < regions.len() && j != i ==> !names(a, #[trigger] regions[j]),
    ensures
        slot_of(regions, a, from) == i,
    decreases i - from,
{
    lemma_names(a, regions[from]);
    if from < i {
        lemma_slot(regions, a, i, from + 1);
    }
}

/// A device's registers are read where the access names them: the guest gets what
/// the register at that distance from the device's first holds, and nothing else
/// changes.
pub proof fn reads_reach_the_device_they_name<C, BS: BlockStorage, ND: NetDevice>(
    layout: MachineLayout,
    a: IoAccess<C>,
    token: int,
    s0: Turn<BS, ND>,
    s1: Turn<BS, ND>,
    r: Result<(), Error>,
    i: int,
)
    requires
        access_rel(layout, a, token, s0, s1, r),
        a.width == 1 || a.width == 2 || a.width == 4 || a.width == 8,
        !a.write,
        0 <= i < layout.virtio@.len() <= usize::MAX,
        names(a, layout.virtio@[i]),
        !names(a, layout.uart),
        forall|j: int|
            0 <= j < layout.virtio@.len() && j != i ==> !names(a, #[trigger] layout.virtio@[j]),
    ensures
        exists|x: Result<(), PlatformError>|
            #[trigger] through(x) && s1 == (Turn {
                calls: s0.calls.push(
                    VmCall::Completed {
                        token,
                        value: s0.devices[i].register(
                            (a.address - layout.virtio@[i].address) as u64,
                            a.width as int,
                        ) as u64,
                        result: x,
                    },
                ),
                ..s0
            }) && (r is Ok <==> x is Ok),
{
    lemma_names(a, layout.uart);
    lemma_slot(layout.virtio@, a, i, 0);
    let offset = (a.address - layout.virtio@[i].address) as u64;
    assert(route(layout, a) == Route::Slot { slot: i as usize, offset });
    let value = s0.devices[i].register(offset, a.width as int) as u64;
    let x = choose|x: Result<(), PlatformError>|
        #[trigger] through(x) && s1 == (Turn {
            calls: s0.calls.push(VmCall::Completed { token, value, result: x }),
            ..s0
        }) && r == lifted(x);
    assert(through(x));
}

/// A device's register is written where the access names it, with the low four
/// bytes of the value, and the guest goes on. No other device changes. Writes of
/// another width are refused.
pub proof fn writes_reach_the_device_they_name<C, BS: BlockStorage, ND: NetDevice>(
    layout: MachineLayout,
    a: IoAccess<C>,
    token: int,
    s0: Turn<BS, ND>,
    s1: Turn<BS, ND>,
    r: Result<(), Error>,
    i: int,
)
    requires
        access_rel(layout, a, token, s0, s1, r),
        a.width == 1 || a.width == 2 || a.width == 4 || a.width == 8,
        a.write,
        0 <= i < layout.virtio@.len() <= usize::MAX,
        s0.devices.len() == layout.virtio@.len(),
        names(a, layout.virtio@[i]),
        !names(a, layout.uart),
        forall|j: int|
            0 <= j < layout.virtio@.len() && j != i ==> !names(a, #[trigger] layout.virtio@[j]),
    ensures
        a.width != 4 ==> s1 == s0 && r == Err::<(), Error>(
            Error::Runtime(RuntimeError::InvalidMmioWidth { width: a.width }),
        ),
        a.width == 4 ==> {
            &&& s1.uart == s0.uart && s1.serial == s0.serial
            &&& s1.devices.len() == s0.devices.len()
            &&& forall|j: int|
                0 <= j < s0.devices.len() && j != i ==> #[trigger] s1.devices[j] == s0.devices[j]
            &&& exists|w: Result<(), DeviceError>, x: Result<(), PlatformError>|
                {
                    &&& #[trigger] through((w, x))
                    &&& write_rel(
                        s0.devices[i],
                        (a.address - layout.virtio@[i].address) as u64,
                        (a.value & 0xffff_ffff) as u32,
                        s0.memory,
                        s1.devices[i],
                        s1.memory,
                        w,
                    )
                    &&& match w {
                        Err(e) => s1.calls == s0.calls && r == Err::<(), Error>(Error::Device(e)),
                        Ok(_) => s1.calls == s0.calls.push(
                            VmCall::Completed { token, value: 0, result: x },
                        ) && (r is Ok <==> x is Ok),
                    }
                }
        },
{
    lemma_names(a, layout.uart);
    lemma_slot(layout.virtio@, a, i, 0);
    let offset = (a.address - layout.virtio@[i].address) as u64;
    assert(route(layout, a) == Route::Slot { slot: i as usize, offset });
    let v = a.value;
    assert(v % 0x1_0000_0000 == v & 0xffff_ffff) by (bit_vector);
    if a.width == 4 {
        let (s, w) = choose|s: Turn<BS, ND>, w: Result<(), DeviceError>|
            {
                &&& #[trigger] through((s, w))
                &&& write_rel(
                    s0.devices[i],
                    offset,
                    (a.value % 0x1_0000_0000) as u32,
                    s0.memory,
                    s.devices[i],
                    s.memory,
                    w,
                )
                &&& s == (Turn {
                    devices: s0.devices.update(i, s.devices[i]),
                    memory: s.memory,
                    ..s0
                })
                &&& match w {
                    Err(e) => s1 == s && r == Err::<(), Error>(Error::Device(e)),
                    Ok(_) => answered(s, token, 0, s1, r),
                }
            };
        if w is Ok {
            let x = choose|x: Result<(), PlatformError>|
                #[trigger] through(x) && s1 == (Turn {
                    calls: s.calls.push(VmCall::Completed { token, value: 0, result: x }),
                    ..s
                }) && r == lifted(x);
            assert(through((w, x)));
        } else {
            assert(through((w, Ok::<(), PlatformError>(()))));
        }
    }
}

/// A byte that the guest writes to the serial port is shown by the host at once;
/// a byte that it reads is the oldest that the host sent. Only accesses of one byte
/// reach the port.
pub proof fn the_serial_port_is_reached<C, BS: BlockStorage, ND: NetDevice>(
    layout: MachineLayout,
    a: IoAccess<C>,
    token: int,
    s0: Turn<BS, ND>,
    s1: Turn<BS, ND>,
    r: Result<(), Error>,
)
    requires
        access_rel(layout, a, token, s0, s1, r),
        layout.uart.size == 8,
        a.width == 1,
        names(a, layout.uart),
    ensures
        s1.devices == s0.devices,
        s1.memory == s0.memory,
        ({
            let data = a.address == layout.uart.address && s0.uart.registers.line_control & 0x80
                == 0;
            let looped = s0.uart.registers.modem_control & 0x10 != 0;
            &&& a.write && data && !looped ==> exists|
                w: Result<(), IoFault>,
                f: Result<(), IoFault>,
            |
                {
                    let wrote = s0.serial.push(
                        SerialCall::Write { data: seq![(a.value & 0xff) as u8], result: w },
                    );
                    &&& #[trigger] through((w, f))
                    &&& s1.serial == if w is Ok {
                        wrote.push(SerialCall::Flush { result: f })
                    } else {
                        wrote
                    }
                    &&& r is Ok ==> w is Ok && f is Ok
                    &&& w is Err || f is Err ==> r is Err && s1.calls == s0.calls
                }
            &&& !(a.write && data && !looped) ==> s1.serial == s0.serial
            &&& r is Ok ==> s1.calls.len() == s0.calls.len() + 1 && s1.calls.drop_last()
                == s0.calls && (s1.calls.last() matches VmCall::Completed {
                token: t,
                value,
                result,
            } && t == token && result is Ok && (a.write ==> value == 0) && (!a.write && data
                ==> value == if s0.uart.input.len() > 0 {
                s0.uart.input[0] as u64
            } else {
                0
            }))
            &&& !a.write ==> s1.uart.input == if data && s0.uart.input.len() > 0 {
                s0.uart.input.skip(1)
            } else {
                s0.uart.input
            }
            &&& a.write && !looped ==> s1.uart.input == s0.uart.input
        }),
{
    lemma_names(a, layout.uart);
    let register = (a.address - layout.uart.address) as u8;
    assert(route(layout, a) == Route::Uart { register });
    let v = a.value;
    assert(v % 0x100 == v & 0xff) by (bit_vector);
    if a.write {
        let (s, w) = choose|s: Turn<BS, ND>, w: Result<(), SerialError>|
            {
                &&& #[trigger] through((s, w))
                &&& output_rel(
                    s0.uart,
                    s0.serial,
                    register,
                    (a.value % 0x100) as u8,
                    s.uart,
                    s.serial,
                    w,
                )
                &&& s == (Turn { uart: s.uart, serial: s.serial, ..s0 })
                &&& match w {
                    Err(e) => s1 == s && r == Err::<(), Error>(Error::Serial(e)),
                    Ok(_) => answered(s, token, 0, s1, r),
                }
            };
        if w is Ok {
            let x = choose|x: Result<(), PlatformError>|
                #[trigger] through(x) && s1 == (Turn {
                    calls: s.calls.push(VmCall::Completed { token, value: 0, result: x }),
                    ..s
                }) && r == lifted(x);
            assert(s1.calls.drop_last() =~= s0.calls);
        }
        if s0.uart.sends(register) {
            let sent = seq![(a.value % 0x100) as u8];
            let (x, f) = choose|x: Result<(), IoFault>, f: Result<(), IoFault>|
                #[trigger] through((x, f)) && {
                    let wrote = s0.serial.push(SerialCall::Write { data: sent, result: x });
                    match x {
                        Err(e) => s.serial == wrote && w == Err::<(), SerialError>(
                            SerialError::Uart(e),
                        ),
                        Ok(_) => {
                            &&& s.serial == wrote.push(SerialCall::Flush { result: f })
                            &&& w == match f {
                                Ok(_) => Ok::<(), SerialError>(()),
                                Err(e) => Err(SerialError::Uart(e)),
                            }
                        },
                    }
                };
            assert(through((x, f)));
        }
    } else {
        let (uart, value) = crate::serial::uart_read(s0.uart, register);
        let s = Turn { uart, ..s0 };
        let x = choose|x: Result<(), PlatformError>|
            #[trigger] through(x) && s1 == (Turn {
                calls: s.calls.push(VmCall::Completed { token, value: value as u64, result: x }),
                ..s
            }) && r == lifted(x);
        assert(s1.calls.drop_last() =~= s0.calls);
    }
}

/// What no device answers to is refused, and so is a width that no access has.
pub proof fn stray_accesses_are_refused<C, BS: BlockStorage, ND: NetDevice>(
    layout: MachineLayout,
    a: IoAccess<C>,
    token: int,
    s0: Turn<BS, ND>,
    s1: Turn<BS, ND>,
    r: Result<(), Error>,
)
    requires
        access_rel(layout, a, token, s0, s1, r),
    ensures
        !(a.width == 1 || a.width == 2 || a.width == 4 || a.width == 8) ==> s1 == s0 && r == Err::<
            (),
            Error,
        >(Error::Runtime(RuntimeError::InvalidIoWidth { width: a.width })),
        (a.width == 1 || a.width == 2 || a.width == 4 || a.width == 8) && !names(a, layout.uart) && (
        forall|i: int| 0 <= i < layout.virtio@.len() ==> !names(a, #[trigger] layout.virtio@[i]))
            ==> s1 == s0 && r == Err::<(), Error>(
            Error::Runtime(RuntimeError::UnmappedIo { address: a.address, width: a.width }),
        ),
{
    if a.width > 0 && !names(a, layout.uart) && forall|i: int|
        0 <= i < layout.virtio@.len() ==> !names(a, #[trigger] layout.virtio@[i]) {
        lemma_names(a, layout.uart);
        lemma_no_slot(layout.virtio@, a, 0);
    }
}

proof fn lemma_no_slot<C>(regions: Seq<IoRegion>, a: IoAccess<C>, from: int)
    requires
        0 <= from <= regions.len(),
        a.width > 0,
        forall|i: int| 0 <= i < regions.len() ==> !names(a, #[trigger] regions[i]),
    ensures
        slot_of(regions, a, from) == regions.len(),
    decreases regions.len() - from,
{
    if from < regions.len() {
        lemma_names(a, regions[from]);
        lemma_no_slot(regions, a, from + 1);
    }
}

/// The interrupt of every device is set to what the device says, in the order of
/// the devices: raised while it has something to tell, and else lowered.
pub proof fn every_interrupt_follows_its_device<BS: BlockStorage, ND: NetDevice>(
    n: nat,
    regions: Seq<IoRegion>,
    devices: Seq<MmioView<Device<BS, ND>>>,
    c0: Seq<VmCall>,
    c1: Seq<VmCall>,
    r: Result<(), PlatformError>,
)
    requires
        irqs_rel(n, regions, devices, c0, c1, r),
    ensures
        c0.len() <= c1.len() <= c0.len() + n,
        c1.take(c0.len() as int) == c0,
        forall|i: int|
            c0.len() <= i < c1.len() ==> (#[trigger] c1[i] matches VmCall::Irq {
                irq,
                level,
                result,
            } && irq == regions[i - c0.len()].irq && (level <==> devices[i
                - c0.len()].queues.interrupt > 0) && (i < c1.len() - 1 ==> result is Ok)),
        r is Ok ==> c1.len() == c0.len() + n,
        r is Ok && n > 0 ==> (c1.last() matches VmCall::Irq { irq, level, result } && result is Ok),
        r is Err ==> c1.len() > c0.len() && (c1.last() matches VmCall::Irq { irq, level, result }
            && result == r),
    decreases n,
{
    if n == 0 {
        assert(c1.take(c0.len() as int) =~= c0);
    } else {
        let (c, e) = choose|c: Seq<VmCall>, e: Result<(), PlatformError>|
            {
                &&& #[trigger] through((c, e))
                &&& irqs_rel((n - 1) as nat, regions, devices, c0, c, e)
                &&& if e is Err {
                    c1 == c && r == e
                } else {
                    c1 == c.push(
                        VmCall::Irq {
                            irq: regions[n - 1].irq,
                            level: devices[n - 1].queues.interrupt != 0,
                            result: r,
                        },
                    )
                }
            };
        every_interrupt_follows_its_device((n - 1) as nat, regions, devices, c0, c, e);
        if e is Ok {
            assert(c1.take(c0.len() as int) =~= c.take(c0.len() as int));
            assert forall|i: int| c0.len() <= i < c1.len() implies (
            #[trigger] c1[i] matches VmCall::Irq { irq, level, result } && irq == regions[i
                - c0.len()].irq && (level <==> devices[i - c0.len()].queues.interrupt > 0) && (i
                < c1.len() - 1 ==> result is Ok)) by {
                if i < c.len() {
                    assert(c1[i] == c[i]);
                    if i == c.len() - 1 {
                        assert(c[i] == c.last());
                    }
                }
            }
        }
    }
}

/// Every device that its driver runs is polled once, in order, each on the memory
/// that the one before left; the others stay as they are.
pub proof fn every_device_is_polled<BS: BlockStorage, ND: NetDevice>(
    n: nat,
    d0: Seq<MmioView<Device<BS, ND>>>,
    m0: Memory,
    d1: Seq<MmioView<Device<BS, ND>>>,
    m1: Memory,
) -> (ms: Seq<Memory>)
    requires
        n <= d0.len(),
        polls_rel(n, d0, m0, d1, m1, Ok(())),
    ensures
        d1.len() == d0.len(),
        ms.len() == n + 1,
        ms[0] == m0,
        ms[n as int] == m1,
        forall|i: int|
            0 <= i < n ==> if (#[trigger] d0[i]).status & 0xcf == 0xf {
                &&& Device::<BS, ND>::poll_rel(
                    d0[i].device,
                    d0[i].queues,
                    ms[i],
                    d1[i].device,
                    d1[i].queues,
                    ms[i + 1],
                    Ok(()),
                )
                &&& d1[i] == (MmioView { device: d1[i].device, queues: d1[i].queues, ..d0[i] })
            } else {
                d1[i] == d0[i] && ms[i + 1] == ms[i]
            },
        forall|i: int| n <= i < d0.len() ==> #[trigger] d1[i] == d0[i],
    decreases n,
{
    if n == 0 {
        seq![m0]
    } else {
        let r = Ok::<(), DeviceError>(());
        let (d, m, e) = choose|
            d: Seq<MmioView<Device<BS, ND>>>,
            m: Memory,
            e: Result<(), DeviceError>,
        |
            {
                &&& #[trigger] through((d, m, e))
                &&& polls_rel((n - 1) as nat, d0, m0, d, m, e)
                &&& if e is Err {
                    d1 == d && m1 == m && r == e
                } else {
                    &&& poll_one(d[n - 1], m, d1[n - 1], m1, r)
                    &&& d1 == d.update(n - 1, d1[n - 1])
                }
            };
        let before = every_device_is_polled((n - 1) as nat, d0, m0, d, m);
        let ms = before.push(m1);
        assert(d[n - 1] == d0[n - 1]);
        assert forall|i: int| 0 <= i < n implies if (#[trigger] d0[i]).status & 0xcf == 0xf {
            &&& Device::<BS, ND>::poll_rel(
                d0[i].device,
                d0[i].queues,
                ms[i],
                d1[i].device,
                d1[i].queues,
                ms[i + 1],
                Ok(()),
            )
            &&& d1[i] == (MmioView { device: d1[i].device, queues: d1[i].queues, ..d0[i] })
        } else {
            d1[i] == d0[i] && ms[i + 1] == ms[i]
        } by {
            if i < n - 1 {
                assert(d1[i] == d[i]);
                assert(ms[i] == before[i] && ms[i + 1] == before[i + 1]);
            }
        }
        ms
    }
}

/// Every device is flushed once, in order, even where one fails; the first failure
/// is the one that is told.
pub proof fn every_device_is_flushed<BS: BlockStorage, ND: NetDevice>(
    n: nat,
    d0: Seq<MmioView<Device<BS, ND>>>,
    d1: Seq<MmioView<Device<BS, ND>>>,
    failed: Option<DeviceError>,
) -> (answers: Seq<Result<(), DeviceError>>)
    requires
        n <= d0.len(),
        flushes_rel(n, d0, d1, failed),
    ensures
        d1.len() == d0.len(),
        answers.len() == n,
        forall|i: int|
            0 <= i < n ==> {
                &&& Device::<BS, ND>::flush_rel(
                    (#[trigger] d0[i]).device,
                    d1[i].device,
                    answers[i],
                )
                &&& d1[i] == (MmioView { device: d1[i].device, ..d0[i] })
            },
        forall|i: int| n <= i < d0.len() ==> #[trigger] d1[i] == d0[i],
        failed is None <==> forall|i: int| 0 <= i < n ==> (#[trigger] answers[i]) is Ok,
        failed matches Some(e) ==> exists|i: int|
            0 <= i < n && #[trigger] answers[i] == Err::<(), DeviceError>(e) && forall|j: int|
                0 <= j < i ==> (#[trigger] answers[j]) is Ok,
    decreases n,
{
    if n == 0 {
        Seq::empty()
    } else {
        let (d, f, w) = choose|
            d: Seq<MmioView<Device<BS, ND>>>,
            f: Option<DeviceError>,
            w: Result<(), DeviceError>,
        |
            {
                &&& #[trigger] through((d, f, w))
                &&& flushes_rel((n - 1) as nat, d0, d, f)
                &&& d1 == d.update(n - 1, d1[n - 1])
                &&& d1[n - 1] == (MmioView { device: d1[n - 1].device, ..d[n - 1] })
                &&& Device::<BS, ND>::flush_rel(d[n - 1].device, d1[n - 1].device, w)
                &&& failed == match (f, w) {
                    (Some(e), _) => Some(e),
                    (None, Err(e)) => Some(e),
                    (None, Ok(_)) => None,
                }
            };
        let before = every_device_is_flushed((n - 1) as nat, d0, d, f);
        let answers = before.push(w);
        assert(d[n - 1] == d0[n - 1]);
        assert forall|i: int| 0 <= i < n implies {
            &&& Device::<BS, ND>::flush_rel((#[trigger] d0[i]).device, d1[i].device, answers[i])
            &&& d1[i] == (MmioView { device: d1[i].device, ..d0[i] })
        } by {
            if i < n - 1 {
                assert(d1[i] == d[i]);
                assert(answers[i] == before[i]);
            }
        }
        assert(answers[n - 1] == w);
        if f is None {
            assert forall|i: int| 0 <= i < n - 1 implies (#[trigger] answers[i]) is Ok by {
                assert(answers[i] == before[i]);
                assert(before[i] is Ok);
            }
        } else {
            let e = f->0;
            let i = choose|i: int|
                0 <= i < n - 1 && #[trigger] before[i] == Err::<(), DeviceError>(e) && forall|
                    j: int,
                |
                    0 <= j < i ==> (#[trigger] before[j]) is Ok;
            assert(answers[i] == before[i]);
            assert forall|j: int| 0 <= j < i implies (#[trigger] answers[j]) is Ok by {
                assert(answers[j] == before[j]);
            }
        }
        answers
    }
}

/// A look at the serial port: a wanted stop is told, before and after. Else the
/// host is asked for as many bytes as there is room for in the port's 64, and what
/// it gives follows what the guest has not read yet.
pub proof fn input_arrives_in_order(
    u0: UartView,
    c0: Seq<SerialCall>,
    u1: UartView,
    c1: Seq<SerialCall>,
    r: Result<bool, SerialError>,
)
    requires
        u0.wf(),
        poll_rel(u0, c0, u1, c1, r),
    ensures
        c1.len() > c0.len(),
        r is Ok ==> c1.last() == (SerialCall::Stop { answer: r->Ok_0 }),
        c1[c0.len() as int] == (SerialCall::Stop { answer: true }) ==> c1.len() == c0.len() + 1 && u1
            == u0 && r == Ok::<bool, SerialError>(true),
        c1[c0.len() as int] != (SerialCall::Stop { answer: true }) && u0.input.len() < 64 ==> (
        c1[c0.len() as int + 1] matches SerialCall::Recv { capacity, data, result } && capacity + u0.input.len()
            == 64 && match result {
            Ok(count) => if count <= capacity {
                r is Ok && data.len() == capacity && (u0.registers.modem_control & 0x10 == 0
                    ==> u1.input == u0.input + data.take(count as int)) && (count == 0 ==> u1 == u0)
            } else {
                r is Err && u1 == u0
            },
            Err(e) => u1 == u0 && (r is Ok <==> e.kind is WouldBlock || e.kind is Interrupted),
        }),
        u0.input.len() == 64 ==> u1 == u0 && r is Ok,
        u1.input.len() <= 64,
{
    let room = (64 - u0.input.len()) as nat;
    let begun = c0.push(SerialCall::Stop { answer: false });
    if c1[c0.len() as int] != (SerialCall::Stop { answer: true }) && room > 0 {
        let (data, result, n) = choose|
            data: Seq<u8>,
            result: Result<usize, IoFault>,
            n: Result<usize, IoFault>,
        |
            #[trigger] through((data, result, n)) && received(result, room, n) && {
                let asked = begun.push(SerialCall::Recv { capacity: room, data, result });
                match n {
                    Err(e) => c1 == asked && u1 == u0 && r == Err::<bool, SerialError>(
                        SerialError::Io(e),
                    ),
                    Ok(count) => {
                        &&& data.len() == room
                        &&& r is Ok
                        &&& c1 == asked.push(SerialCall::Stop { answer: r->Ok_0 })
                        &&& u1 == if count == 0 {
                            u0
                        } else {
                            crate::serial::uart_received(u0, data.take(count as int))
                        }
                        &&& u1.input == if u0.looped() {
                            u0.input
                        } else {
                            u0.input + data.take(count as int)
                        }
                    },
                }
            };
        assert(c1[c0.len() as int + 1] == (SerialCall::Recv { capacity: room, data, result }));
    }
}

/// A round of the devices: the serial port is looked at, its interrupt is set to
/// what it says, and then each device is polled. A wanted stop ends the round.
pub proof fn a_round_looks_after_everything<BS: BlockStorage, ND: NetDevice>(
    irq: u32,
    s0: Turn<BS, ND>,
    s1: Turn<BS, ND>,
    r: Result<bool, Error>,
)
    requires
        devices_rel(irq, s0, s1, r),
    ensures
        exists|w: Result<bool, SerialError>|
            {
                &&& #[trigger] through(w)
                &&& poll_rel(s0.uart, s0.serial, s1.uart, s1.serial, w)
                &&& w matches Ok(stop) ==> (r matches Ok(b) ==> b == stop)
                &&& w is Err ==> r is Err
                &&& w != Ok::<bool, SerialError>(false) ==> s1.devices == s0.devices && s1.memory
                    == s0.memory && s1.calls == s0.calls
                &&& w == Ok::<bool, SerialError>(false) ==> s1.calls.len() == s0.calls.len() + 1
                    && s1.calls.drop_last() == s0.calls && (s1.calls.last() matches VmCall::Irq {
                    irq: line,
                    level,
                    result,
                } && line == irq && (level <==> s1.uart.registers.interrupt_identification & 1 == 0)
                    && (r is Ok ==> result is Ok && polls_rel(
                    s0.devices.len(),
                    s0.devices,
                    s0.memory,
                    s1.devices,
                    s1.memory,
                    Ok(()),
                )) && (result is Err ==> r is Err && s1.devices == s0.devices))
            },
{
    let (s, w) = choose|s: Turn<BS, ND>, w: Result<bool, SerialError>|
        {
            &&& #[trigger] through((s, w))
            &&& poll_rel(s0.uart, s0.serial, s.uart, s.serial, w)
            &&& s == (Turn { uart: s.uart, serial: s.serial, ..s0 })
            &&& match w {
                Err(e) => s1 == s && r == Err::<bool, Error>(Error::Serial(e)),
                Ok(true) => s1 == s && r == Ok::<bool, Error>(true),
                Ok(false) => exists|a: Result<(), PlatformError>, p: Result<(), DeviceError>|
                    #[trigger] through((a, p)) && {
                        let t = Turn {
                            calls: s.calls.push(
                                VmCall::Irq { irq, level: s.uart.pending(), result: a },
                            ),
                            ..s
                        };
                        match a {
                            Err(e) => s1 == t && r == Err::<bool, Error>(Error::Platform(e)),
                            Ok(_) => {
                                &&& polls_rel(
                                    t.devices.len(),
                                    t.devices,
                                    t.memory,
                                    s1.devices,
                                    s1.memory,
                                    p,
                                )
                                &&& s1 == (Turn { devices: s1.devices, memory: s1.memory, ..t })
                                &&& r == match p {
                                    Ok(_) => Ok::<bool, Error>(false),
                                    Err(e) => Err(Error::Device(e)),
                                }
                            },
                        }
                    },
            }
        };
    assert(through(w));
    if w == Ok::<bool, SerialError>(false) {
        assert(s1.calls.drop_last() =~= s0.calls);
    }
}

/// Before memory is plugged or unplugged, what the drivers of all devices have lent
/// is pinned: the tables of every queue in use, and every buffer that waits there.
pub proof fn all_lent_memory_is_pinned<BS: BlockStorage, ND: NetDevice>(
    n: nat,
    devices: Seq<MmioView<Device<BS, ND>>>,
    m0: Memory,
    m1: Memory,
    all: Seq<(u64, u64)>,
) -> (logs: Seq<Seq<Access>>)
    requires
        n <= devices.len(),
        all_pins_rel(n, devices, m0, m1, Ok(all)),
        ordered(m0.regions),
        forall|i: int| 0 <= i < devices.len() ==> (#[trigger] devices[i]).queues.wf(),
    ensures
        logs.len() == n,
        m1.same(m0),
        forall|i: int| 0 <= i < n ==> buffers_in(#[trigger] logs[i], all),
        forall|i: int, k: int|
            0 <= i < n && 0 <= k < devices[i].queues.rings.len() && (
            #[trigger] devices[i].queues.rings[k]).ready ==> {
                let ring = devices[i].queues.rings[k];
                &&& all.contains((ring.desc_table, (16 * ring.size) as u64))
                &&& all.contains((ring.avail_ring, (6 + 2 * ring.size) as u64))
                &&& all.contains((ring.used_ring, (6 + 8 * ring.size) as u64))
                &&& exists|j: int| #[trigger] ring_at(logs[i], j, ring)
            },
    decreases n,
{
    if n == 0 {
        Seq::empty()
    } else {
        let r = Ok::<Seq<(u64, u64)>, DeviceError>(all);
        let (m, e) = choose|m: Memory, e: Result<Seq<(u64, u64)>, DeviceError>|
            {
                &&& #[trigger] through((m, e))
                &&& all_pins_rel((n - 1) as nat, devices, m0, m, e)
                &&& match e {
                    Err(_) => m1 == m && r == e,
                    Ok(p) => exists|q: Result<Seq<(u64, u64)>, DeviceError>|
                        #[trigger] pinned_rel(
                            devices[n - 1].queues.rings,
                            devices[n - 1].queues.rings.len(),
                            m,
                            m1,
                            q,
                        ) && r == joined(p, q),
                }
            };
        let p = e->Ok_0;
        let rings = devices[n - 1].queues.rings;
        let q = choose|q: Result<Seq<(u64, u64)>, DeviceError>|
            #[trigger] pinned_rel(rings, rings.len(), m, m1, q) && r == joined(p, q);
        let more = q->Ok_0;
        assert(all =~= p + more);
        let before = all_lent_memory_is_pinned((n - 1) as nat, devices, m0, m, p);
        assert(devices[n - 1].queues.wf());
        let log = lent_memory_is_pinned(rings, rings.len(), m, m1, more);
        let logs = before.push(log);
        assert forall|x: (u64, u64)| p.contains(x) || more.contains(x) implies all.contains(x) by {
            if p.contains(x) {
                let i = choose|i: int| 0 <= i < p.len() && p[i] == x;
                assert(all[i] == x);
            } else {
                let i = choose|i: int| 0 <= i < more.len() && more[i] == x;
                assert(all[p.len() + i] == x);
            }
        }
        assert forall|i: int| 0 <= i < n implies buffers_in(#[trigger] logs[i], all) by {
            if i < n - 1 {
                assert(logs[i] == before[i]);
            }
        }
        assert forall|i: int, k: int|
            0 <= i < n && 0 <= k < devices[i].queues.rings.len() && (
            #[trigger] devices[i].queues.rings[k]).ready implies {
            let ring = devices[i].queues.rings[k];
            &&& all.contains((ring.desc_table, (16 * ring.size) as u64))
            &&& all.contains((ring.avail_ring, (6 + 2 * ring.size) as u64))
            &&& all.contains((ring.used_ring, (6 + 8 * ring.size) as u64))
            &&& exists|j: int| #[trigger] ring_at(logs[i], j, ring)
        } by {
            let ring = devices[i].queues.rings[k];
            let from = if i < n - 1 {
                p
            } else {
                more
            };
            let part = if i < n - 1 {
                before[i]
            } else {
                log
            };
            assert(logs[i] == part);
            assert(i == n - 1 ==> rings[k].ready);
            assert(from.contains((ring.desc_table, (16 * ring.size) as u64)));
            assert(from.contains((ring.avail_ring, (6 + 2 * ring.size) as u64)));
            assert(from.contains((ring.used_ring, (6 + 8 * ring.size) as u64)));
            let j = choose|j: int| #[trigger] ring_at(part, j, ring);
            assert(ring_at(logs[i], j, ring));
        }
        logs
    }
}

/// The memory device follows its driver and its target: a target that changed is
/// put in its configuration and told to the driver, and whether the driver is up is
/// told to who watches. Nothing of any other device changes.
pub proof fn the_memory_device_follows_its_target<BS: BlockStorage, ND: NetDevice>(
    s0: Tending<BS, ND>,
    s1: Tending<BS, ND>,
    r: Result<bool, Error>,
)
    requires
        s0.devices.len() > 0,
        s0.status.requested_size_mib * 0x10_0000 <= u64::MAX,
        sync_rel(s0, s1, r),
    ensures
        ({
            let last = s0.devices.len() - 1;
            let d0 = s0.devices[last];
            let d1 = s1.devices[last];
            let up = d0.status & 0xcf == 0xf;
            &&& s1.calls == s0.calls
            &&& s1.devices.len() == s0.devices.len()
            &&& forall|i: int| 0 <= i < last ==> #[trigger] s1.devices[i] == s0.devices[i]
            &&& s1.status.driver_ready == up
            &&& s1.status.requested_size_mib == s0.status.requested_size_mib
            &&& s1.status.plugged_size_mib == s0.status.plugged_size_mib
            &&& d1.device matches Device::Mem(b) && b@.requested == s0.status.requested_size_mib
                * 0x10_0000 && b@.ready == up
            &&& d0.device matches Device::Mem(a) && d1.device matches Device::Mem(b) && {
                let new = a@.requested != b@.requested;
                &&& b@.blocks == a@.blocks && b@.plugged == a@.plugged && b@.start == a@.start
                &&& new ==> d1.queues.interrupt == d0.queues.interrupt | 2 && b@.generation
                    != a@.generation
                &&& !new ==> d1.queues == d0.queues && b@.generation == a@.generation
            }
            &&& d1.queues.rings == d0.queues.rings
            &&& !up ==> r == Ok::<bool, Error>(false) && s1.memory == s0.memory
            &&& up && r is Ok ==> s1.memory.accesses.len() == s0.memory.accesses.len() + 1 && (
            s1.memory.accesses.last() matches Access::AvailIdx { addr, value } && addr
                == d0.queues.rings[0].avail_ring && value is Some && (r->Ok_0 <==> value->0
                != d0.queues.rings[0].next_avail))
        }),
{
    assert(crate::memory::MIB == 0x10_0000);
    let last = s0.devices.len() - 1;
    let d0 = s0.devices[last];
    let d1 = s1.devices[last];
    if d0.status & 0xcf == 0xf {
        let n = choose|n: Result<u16, DeviceError>|
            #[trigger] available_rel(d1.queues.rings[0], s0.memory, s1.memory, n) && r == match n {
                Ok(count) => Ok::<bool, Error>(count != 0),
                Err(e) => Err(Error::Device(e)),
            };
        if r is Ok {
            let ring = d1.queues.rings[0];
            let idx = choose|idx: Option<u16>|
                s1.memory == s0.memory.after(#[trigger] crate::ring::idx_access(ring, idx)) && n
                    == crate::devices::queues::pending(ring, idx);
            let x = (idx->0 - ring.next_avail) % 0x1_0000;
            assert(n->Ok_0 == x);
        }
    }
}

/// Later calls only follow earlier ones.
pub open spec fn calls_go_on(c0: Seq<VmCall>, c1: Seq<VmCall>) -> bool {
    c0.len() <= c1.len() && c1.take(c0.len() as int) == c0
}

proof fn lemma_calls_go_on(a: Seq<VmCall>, b: Seq<VmCall>, c: Seq<VmCall>)
    requires
        calls_go_on(a, b),
        calls_go_on(b, c),
    ensures
        calls_go_on(a, c),
{
    assert(c.take(a.len() as int) =~= c.take(b.len() as int).take(a.len() as int));
}

proof fn lemma_extended(a: Seq<VmCall>, more: Seq<VmCall>)
    ensures
        calls_go_on(a, a + more),
{
    assert((a + more).take(a.len() as int) =~= a);
}

proof fn lemma_request_calls(
    s0: Machine,
    req: Seq<u8>,
    pinned: Seq<(u64, u64)>,
    s1: Machine,
    r: Result<(u16, u16), MemoryError>,
)
    requires
        request_rel(s0, req, pinned, s1, r),
    ensures
        calls_go_on(s0.maps, s1.maps),
{
    lemma_extended(s0.maps, Seq::empty());
    assert(s0.maps + Seq::<VmCall>::empty() =~= s0.maps);
    match decide(s0.device, s0.status, req, pinned) {
        Verdict::Answer { code, state } => {},
        Verdict::Change { addresses, plug } => {
            let (s, c) = choose|s: Machine, c: Result<bool, MemoryError>|
                #[trigger] change_rel(s0, addresses, plug, s, c) && match c {
                    Err(e) => s1 == s && r == Err::<(u16, u16), MemoryError>(e),
                    Ok(false) => s1 == s && r == Ok::<(u16, u16), MemoryError>((2, 0)),
                    Ok(true) => s1 == settled(s) && r == Ok::<(u16, u16), MemoryError>((0, 0)),
                };
            let list = choose|list: Seq<Piece>| #[trigger]
                chosen(s0.device, addresses, plug, list) && list_rel(
                    s0,
                    addresses,
                    list,
                    plug,
                    s,
                    c,
                );
            match c {
                Ok(true) => {
                    lemma_extended(s0.maps, granted(list, plug));
                },
                Err(e) if !(e is RollbackFailed) => {},
                _ => {
                    let (k, e, answers) = choose|
                        k: int,
                        e: MemoryError,
                        answers: Seq<Result<(), MemoryError>>,
                    | #[trigger]
                        failed_at(s0, list, plug, k, e, answers, s.maps);
                    let more = granted(list.take(k), plug) + seq![asked(list[k], plug, Err(e))]
                        + undoing(list.take(k), plug, answers);
                    assert(s.maps =~= s0.maps + more);
                    lemma_extended(s0.maps, more);
                },
            }
        },
    }
}

proof fn lemma_turn_calls(
    s0: Machine,
    q0: QueuesView,
    pinned: Seq<(u64, u64)>,
    s1: Machine,
    q1: QueuesView,
    r: Result<bool, DeviceError>,
)
    requires
        turn_rel(s0, q0, pinned, s1, q1, r),
    ensures
        calls_go_on(s0.maps, s1.maps),
{
    lemma_extended(s0.maps, Seq::empty());
    assert(s0.maps + Seq::<VmCall>::empty() =~= s0.maps);
    let (q, m, c) = choose|
        q: QueuesView,
        m: Memory,
        c: Result<Option<(u16, Seq<Descriptor>)>, DeviceError>,
    |
        #[trigger] pop_rel(q0, 0, s0.memory, q, m, c) && match c {
            Err(e) => s1 == s0.remember(m) && q1 == q && r == Err::<bool, DeviceError>(e),
            Ok(None) => s1 == s0.remember(m) && q1 == q && r == Ok::<bool, DeviceError>(false),
            Ok(Some(chain)) => match no_request(chain.1) {
                Some(e) => s1 == s0.remember(m) && q1 == q && r == Err::<bool, DeviceError>(
                    DeviceError::Memory(e),
                ),
                None => exists|req: Seq<u8>, s: Machine, a: Result<(u16, u16), MemoryError>|
                    #[trigger] through((req, s, a)) && served(
                        s0.remember(m),
                        q,
                        pinned,
                        chain,
                        req,
                        s,
                        a,
                        s1,
                        q1,
                        r,
                    ),
            },
        };
    if c is Ok && c->Ok_0 is Some && no_request((c->Ok_0->0).1) is None {
        let chain = c->Ok_0->0;
        let (req, s, a) = choose|req: Seq<u8>, s: Machine, a: Result<(u16, u16), MemoryError>|
            #[trigger] through((req, s, a)) && served(
                s0.remember(m),
                q,
                pinned,
                chain,
                req,
                s,
                a,
                s1,
                q1,
                r,
            );
        let input = crate::devices::buffers::span(
            crate::devices::buffers::spread(m.regions, crate::devices::memory::part(chain.1, false)),
            0,
            24,
        );
        lemma_request_calls(
            s0.remember(m).remember(m.after_all(crate::devices::buffers::reads(input, req))),
            req,
            pinned + crate::devices::memory::own_pins(chain.1),
            s,
            a,
        );
        assert(s1.maps == s.maps);
    }
}

proof fn lemma_turns_calls(
    n: nat,
    s0: Machine,
    q0: QueuesView,
    pinned: Seq<(u64, u64)>,
    s1: Machine,
    q1: QueuesView,
    r: Result<bool, DeviceError>,
)
    requires
        turns_rel(n, s0, q0, pinned, s1, q1, r),
    ensures
        calls_go_on(s0.maps, s1.maps),
    decreases n,
{
    if n == 0 {
        assert(s0.maps.take(s0.maps.len() as int) =~= s0.maps);
    } else {
        let (s, q, e) = choose|s: Machine, q: QueuesView, e: Result<bool, DeviceError>|
            {
                &&& #[trigger] through((s, q, e))
                &&& turns_rel((n - 1) as nat, s0, q0, pinned, s, q, e)
                &&& if e == Ok::<bool, DeviceError>(true) {
                    turn_rel(s, q, pinned, s1, q1, r)
                } else {
                    s1 == s && q1 == q && r == e
                }
            };
        lemma_turns_calls((n - 1) as nat, s0, q0, pinned, s, q, e);
        if e == Ok::<bool, DeviceError>(true) {
            lemma_turn_calls(s, q, pinned, s1, q1, r);
            lemma_calls_go_on(s0.maps, s.maps, s1.maps);
        }
    }
}

/// Memory is plugged and unplugged only while every vCPU is paused: where there is
/// something to do the VM is paused first, what is lent is pinned, the requests are
/// served, and then the VM is resumed. Where there is nothing to do no call is made.
pub proof fn memory_changes_while_no_vcpu_runs<BS: BlockStorage, ND: NetDevice>(
    s0: Tending<BS, ND>,
    s1: Tending<BS, ND>,
)
    requires
        s0.devices.len() > 0,
        tend_rel(s0, s1, Ok(())),
    ensures
        calls_go_on(s0.calls, s1.calls),
        s1.calls.len() > s0.calls.len() ==> {
            let n = s0.calls.len() as int;
            &&& s1.calls.len() >= n + 2
            &&& s1.calls[n] matches VmCall::Paused { result } && result is Ok
            &&& s1.calls.last() matches VmCall::Resumed { result } && result is Ok
            &&& exists|
                s: Tending<BS, ND>,
                t: Tending<BS, ND>,
                pinned: Seq<(u64, u64)>,
                u: Tending<BS, ND>,
            |
                {
                    &&& #[trigger] through((s, t, pinned, u))
                    &&& sync_rel(s0, s, Ok(true))
                    &&& t.calls == s0.calls.push(VmCall::Paused { result: Ok(()) })
                    &&& all_pins_rel(t.devices.len(), s.devices, s.memory, t.memory, Ok(pinned))
                    &&& plug_rel(pinned, t, u, Ok(()))
                    &&& s1.devices == u.devices && s1.status == u.status && s1.memory == u.memory
                }
        },
        s1.calls == s0.calls ==> sync_rel(s0, s1, Ok(false)),
{
    let r = Ok::<(), Error>(());
    let (s, e) = choose|s: Tending<BS, ND>, e: Result<bool, Error>|
        #[trigger] sync_rel(s0, s, e) && match e {
            Err(e) => s1 == s && r == Err::<(), Error>(e),
            Ok(false) => s1 == s && r == Ok::<(), Error>(()),
            Ok(true) => exists|t: Tending<BS, ND>, p: Result<Seq<(u64, u64)>, Error>|
                #[trigger] quiesce_rel(s, t, p) && match p {
                    Err(e) => s1 == t && r == Err::<(), Error>(e),
                    Ok(pinned) => exists|u: Tending<BS, ND>, w: Result<(), Error>|
                        #[trigger] plug_rel(pinned, t, u, w) && match w {
                            Err(_) => s1 == u && r == w,
                            Ok(_) => exists|a: Result<(), PlatformError>|
                                #[trigger] through(a) && s1 == (Tending {
                                    calls: u.calls.push(VmCall::Resumed { result: a }),
                                    ..u
                                }) && r == lifted(a),
                        },
                },
        };
    if e == Ok::<bool, Error>(false) {
        assert(s0.calls.take(s0.calls.len() as int) =~= s0.calls);
    } else {
        let (t, p) = choose|t: Tending<BS, ND>, p: Result<Seq<(u64, u64)>, Error>|
            #[trigger] quiesce_rel(s, t, p) && match p {
                Err(e) => s1 == t && r == Err::<(), Error>(e),
                Ok(pinned) => exists|u: Tending<BS, ND>, w: Result<(), Error>|
                    #[trigger] plug_rel(pinned, t, u, w) && match w {
                        Err(_) => s1 == u && r == w,
                        Ok(_) => exists|a: Result<(), PlatformError>|
                            #[trigger] through(a) && s1 == (Tending {
                                calls: u.calls.push(VmCall::Resumed { result: a }),
                                ..u
                            }) && r == lifted(a),
                    },
            };
        let pinned = p->Ok_0;
        let (u, w) = choose|u: Tending<BS, ND>, w: Result<(), Error>|
            #[trigger] plug_rel(pinned, t, u, w) && match w {
                Err(_) => s1 == u && r == w,
                Ok(_) => exists|a: Result<(), PlatformError>|
                    #[trigger] through(a) && s1 == (Tending {
                        calls: u.calls.push(VmCall::Resumed { result: a }),
                        ..u
                    }) && r == lifted(a),
            };
        let a = choose|a: Result<(), PlatformError>|
            #[trigger] through(a) && s1 == (Tending {
                calls: u.calls.push(VmCall::Resumed { result: a }),
                ..u
            }) && r == lifted(a);
        lemma_plug_calls(pinned, t, u, w);
        let n = s0.calls.len() as int;
        let (x, y) = choose|x: Result<(), PlatformError>, y: Result<Seq<(u64, u64)>, DeviceError>|
            {
                &&& #[trigger] through((x, y))
                &&& t == (Tending {
                    memory: t.memory,
                    calls: s.calls.push(VmCall::Paused { result: x }),
                    ..s
                })
                &&& match x {
                    Err(e) => t.memory == s.memory && p == Err::<Seq<(u64, u64)>, Error>(
                        Error::Platform(e),
                    ),
                    Ok(_) => all_pins_rel(s.devices.len(), s.devices, s.memory, t.memory, y) && p
                        == crate::runtime::from_device(y),
                }
            };
        assert(p is Ok);
        assert(through((x, y)));
        assert(x is Ok);
        assert(x->Ok_0 == ());
        assert(x == Ok::<(), PlatformError>(()));
        assert(t.calls == s0.calls.push(VmCall::Paused { result: Ok(()) }));
        assert(t.calls.take(n) =~= s0.calls);
        lemma_calls_go_on(s0.calls, t.calls, u.calls);
        assert(s1.calls.take(n) =~= u.calls.take(n));
        assert(u.calls[n] == t.calls[n]) by {
            assert(u.calls.take(t.calls.len() as int)[n] == u.calls[n]);
        }
        assert(s1.calls[n] == u.calls[n]);
        assert(through((s, t, pinned, u)));
        assert(s1.calls.len() > s0.calls.len());
    }
}

proof fn lemma_plug_calls<BS: BlockStorage, ND: NetDevice>(
    pinned: Seq<(u64, u64)>,
    s0: Tending<BS, ND>,
    s1: Tending<BS, ND>,
    r: Result<(), Error>,
)
    requires
        plug_rel(pinned, s0, s1, r),
    ensures
        calls_go_on(s0.calls, s1.calls),
{
    let last = s0.devices.len() - 1;
    let d0 = s0.devices[last];
    let d1 = s1.devices[last];
    let a = d0.device->Mem_0;
    let b = d1.device->Mem_0;
    let x = snapshot(a@, s0.status, s0.calls, s0.memory);
    let y = snapshot(b@, s1.status, s1.calls, s1.memory);
    let p = choose|p: Result<(), DeviceError>|
        #[trigger] process_rel(x, d0.queues, pinned, y, d1.queues, p) && r
            == crate::runtime::from_device(p);
    let t = choose|t: Result<bool, DeviceError>|
        {
            &&& #[trigger] through(t)
            &&& turns_rel(128, x, d0.queues, pinned, y, d1.queues, t)
            &&& p == match t {
                Ok(_) => Ok::<(), DeviceError>(()),
                Err(e) => Err(e),
            }
        };
    lemma_turns_calls(128, x, d0.queues, pinned, y, d1.queues, t);
}

/// At the end of a turn the interrupt of each device is set to what the device says
/// by then, and after that the guest is given two milliseconds to ask for something.
pub proof fn interrupts_are_set_before_the_guest_is_heard<
    VM: VirtualMachine,
    BS: BlockStorage,
    ND: NetDevice,
>(
    layout: MachineLayout,
    has_memory: bool,
    s0: Whole<BS, ND>,
    s1: Whole<BS, ND>,
    r: Result<Progress, Error>,
)
    requires
        r is Ok,
        Runtime::<VM, BS, ND>::event_rel(layout, has_memory, s0, s1, r),
    ensures
        ({
            let at = s0.turn.calls.len() as int;
            let n = s0.turn.devices.len() as int;
            &&& s1.turn.calls.len() > at + n
            &&& s1.turn.calls.take(at) == s0.turn.calls
            &&& forall|i: int|
                at <= i < at + n ==> (#[trigger] s1.turn.calls[i] matches VmCall::Irq {
                    irq,
                    level,
                    result,
                } && irq == layout.virtio@[i - at].irq && (level <==> s0.turn.devices[i
                    - at].queues.interrupt > 0) && result is Ok)
            &&& s1.turn.calls[at + n] matches VmCall::Polled { timeout_ms, result } && timeout_ms
                == 2
        }),
{
    let at = s0.turn.calls.len() as int;
    let n = s0.turn.devices.len() as int;
    let (c, i) = choose|c: Seq<VmCall>, i: Result<(), PlatformError>|
        {
            &&& #[trigger] through((c, i))
            &&& irqs_rel(
                s0.turn.devices.len(),
                layout.virtio@,
                s0.turn.devices,
                s0.turn.calls,
                c,
                i,
            )
            &&& Runtime::<VM, BS, ND>::last_rel(layout, has_memory, s0, c, i, s1, r)
        };
    every_interrupt_follows_its_device(
        s0.turn.devices.len(),
        layout.virtio@,
        s0.turn.devices,
        s0.turn.calls,
        c,
        i,
    );
    assert(i is Ok);
    let event = lemma_last::<VM, BS, ND>(layout, has_memory, s0, c, s1, r);
    let polled = c.push(
        VmCall::Polled {
            timeout_ms: 2,
            result: crate::platform::observed(event, |c: VM::Completion| VM::token(c)),
        },
    );
    assert(calls_go_on(polled, s1.turn.calls));
    let all = s1.turn.calls;
    assert forall|j: int| 0 <= j < polled.len() implies all[j] == #[trigger] polled[j] by {
        assert(all.take(polled.len() as int)[j] == all[j]);
    }
    assert(all.take(at) =~= s0.turn.calls) by {
        assert forall|j: int| 0 <= j < at implies all[j] == s0.turn.calls[j] by {
            assert(polled[j] == c[j]);
            assert(c.take(at)[j] == c[j]);
        }
    }
    assert forall|j: int| at <= j < at + n implies (#[trigger] all[j] matches VmCall::Irq {
        irq,
        level,
        result,
    } && irq == layout.virtio@[j - at].irq && (level <==> s0.turn.devices[j - at].queues.interrupt
        > 0) && result is Ok) by {
        assert(all[j] == polled[j]);
        assert(polled[j] == c[j]);
        if j == at + n - 1 {
            assert(c[j] == c.last());
        }
    }
    assert(all[at + n] == polled[at + n]);
}

proof fn lemma_last<VM: VirtualMachine, BS: BlockStorage, ND: NetDevice>(
    layout: MachineLayout,
    has_memory: bool,
    s0: Whole<BS, ND>,
    c: Seq<VmCall>,
    s1: Whole<BS, ND>,
    r: Result<Progress, Error>,
) -> (event: Result<Option<Event<VM::Completion>>, PlatformError>)
    requires
        r is Ok,
        Runtime::<VM, BS, ND>::last_rel(layout, has_memory, s0, c, Ok(()), s1, r),
    ensures
        calls_go_on(
            c.push(
                VmCall::Polled {
                    timeout_ms: 2,
                    result: crate::platform::observed(event, |c: VM::Completion| VM::token(c)),
                },
            ),
            s1.turn.calls,
        ),
{
    let event = choose|event: Result<Option<Event<VM::Completion>>, PlatformError>|
        #[trigger] through(event) && {
            let polled = Turn {
                calls: c.push(
                    VmCall::Polled {
                        timeout_ms: crate::runtime::EVENT_TIMEOUT_MS,
                        result: crate::platform::observed(
                            event,
                            |c: VM::Completion| VM::token(c),
                        ),
                    },
                ),
                ..s0.turn
            };
            match event {
                Err(e) => s1 == s0.but(polled) && r == Err::<Progress, Error>(Error::Platform(e)),
                Ok(None) => s1 == s0.but(polled) && r == Ok::<Progress, Error>(Progress::Continue),
                Ok(Some(Event::Shutdown)) => s1 == s0.but(polled) && r == Ok::<Progress, Error>(
                    Progress::Stop,
                ),
                Ok(Some(Event::Io(a))) => s1.status == crate::runtime::published(
                    s0.status,
                    has_memory,
                    s1.turn.devices,
                ) && exists|w: Result<(), Error>|
                    #[trigger] through(w) && access_rel(
                        layout,
                        a,
                        VM::token(a.completion),
                        polled,
                        s1.turn,
                        w,
                    ) && r == match w {
                        Ok(_) => Ok::<Progress, Error>(Progress::Continue),
                        Err(e) => Err(e),
                    },
            }
        };
    let calls = c.push(
        VmCall::Polled {
            timeout_ms: 2,
            result: crate::platform::observed(event, |c: VM::Completion| VM::token(c)),
        },
    );
    let polled = Turn { calls, ..s0.turn };
    assert(calls.take(calls.len() as int) =~= calls);
    if let Ok(Some(Event::Io(a))) = event {
        let w = choose|w: Result<(), Error>|
            #[trigger] through(w) && access_rel(
                layout,
                a,
                VM::token(a.completion),
                polled,
                s1.turn,
                w,
            ) && r == match w {
                Ok(_) => Ok::<Progress, Error>(Progress::Continue),
                Err(e) => Err(e),
            };
        lemma_access_calls(layout, a, VM::token(a.completion), polled, s1.turn, w);
    }
    event
}

proof fn lemma_answered<BS: BlockStorage, ND: NetDevice>(
    s0: Turn<BS, ND>,
    token: int,
    value: u64,
    s1: Turn<BS, ND>,
    r: Result<(), Error>,
)
    requires
        answered(s0, token, value, s1, r),
    ensures
        calls_go_on(s0.calls, s1.calls),
{
    let a = choose|a: Result<(), PlatformError>|
        #[trigger] through(a) && s1 == (Turn {
            calls: s0.calls.push(VmCall::Completed { token, value, result: a }),
            ..s0
        }) && r == lifted(a);
    assert(s1.calls.take(s0.calls.len() as int) =~= s0.calls);
}

proof fn lemma_access_calls<C, BS: BlockStorage, ND: NetDevice>(
    layout: MachineLayout,
    a: IoAccess<C>,
    token: int,
    s0: Turn<BS, ND>,
    s1: Turn<BS, ND>,
    r: Result<(), Error>,
)
    requires
        access_rel(layout, a, token, s0, s1, r),
    ensures
        calls_go_on(s0.calls, s1.calls),
{
    assert(s0.calls.take(s0.calls.len() as int) =~= s0.calls);
    if a.width == 1 || a.width == 2 || a.width == 4 || a.width == 8 {
        match route(layout, a) {
            Route::Nowhere => {},
            Route::Uart { register } => {
                if a.write {
                    let (s, w) = choose|s: Turn<BS, ND>, w: Result<(), SerialError>|
                        {
                            &&& #[trigger] through((s, w))
                            &&& output_rel(
                                s0.uart,
                                s0.serial,
                                register,
                                (a.value % 0x100) as u8,
                                s.uart,
                                s.serial,
                                w,
                            )
                            &&& s == (Turn { uart: s.uart, serial: s.serial, ..s0 })
                            &&& match w {
                                Err(e) => s1 == s && r == Err::<(), Error>(Error::Serial(e)),
                                Ok(_) => answered(s, token, 0, s1, r),
                            }
                        };
                    if w is Ok {
                        lemma_answered(s, token, 0, s1, r);
                    }
                } else {
                    let (uart, value) = crate::serial::uart_read(s0.uart, register);
                    lemma_answered(Turn { uart, ..s0 }, token, value as u64, s1, r);
                }
            },
            Route::Slot { slot, offset } => {
                if !a.write {
                    lemma_answered(
                        s0,
                        token,
                        s0.devices[slot as int].register(offset, a.width as int) as u64,
                        s1,
                        r,
                    );
                } else if a.width == 4 {
                    let (s, w) = choose|s: Turn<BS, ND>, w: Result<(), DeviceError>|
                        {
                            &&& #[trigger] through((s, w))
                            &&& write_rel(
                                s0.devices[slot as int],
                                offset,
                                (a.value % 0x1_0000_0000) as u32,
                                s0.memory,
                                s.devices[slot as int],
                                s.memory,
                                w,
                            )
                            &&& s == (Turn {
                                devices: s0.devices.update(slot as int, s.devices[slot as int]),
                                memory: s.memory,
                                ..s0
                            })
                            &&& match w {
                                Err(e) => s1 == s && r == Err::<(), Error>(Error::Device(e)),
                                Ok(_) => answered(s, token, 0, s1, r),
                            }
                        };
                    if w is Ok {
                        lemma_answered(s, token, 0, s1, r);
                    }
                }
            },
        }
    }
}

/// Who watches the memory learns from its device whether the driver is up, and that
/// it runs; sizes and target stay.
pub proof fn watchers_are_told<BS: BlockStorage, ND: NetDevice>(
    status: MemoryStatus,
    devices: Seq<MmioView<Device<BS, ND>>>,
)
    ensures
        devices.last().device matches Device::Mem(d) ==> crate::runtime::published(
            Some(status),
            true,
            devices,
        ) == Some(MemoryStatus { driver_ready: d.ready, ..status }),
        crate::runtime::published(Some(status), false, devices) == Some(status),
        crate::runtime::memory_running(Some(status), true) matches Some(m) && m.lifecycle is Running
            && m.requested_size_mib == status.requested_size_mib && m.plugged_size_mib
            == status.plugged_size_mib && m.driver_ready == status.driver_ready,
        crate::runtime::memory_running(Some(status), false) == Some(status),
{
}

/// The devices of a new machine are those that were given, in order: the disks, each
/// with the first twenty bytes of its name as its identity, the network interface,
/// and the memory. None was touched yet.
pub proof fn machines_have_the_given_devices<BS: BlockStorage, ND: NetDevice>(
    disks: Seq<(String, BS)>,
    net: Option<ND>,
    memory: Option<MemView>,
    devices: Seq<Mmio<Device<BS, ND>>>,
)
    requires
        assembled(disks, net, memory, devices),
    ensures
        forall|i: int|
            0 <= i < devices.len() ==> (#[trigger] devices[i])@.status == 0
                && devices[i]@.queues.interrupt == 0 && devices[i]@.queues.negotiated == 0,
        forall|i: int|
            0 <= i < disks.len() ==> ((#[trigger] devices[i]).device matches Device::Block(b)
                && b.disk == disks[i].1 && b.id@.len() == 20 && forall|k: int|
                0 <= k < 20 ==> #[trigger] b.id@[k] == if k < name_bytes(disks[i].0).len() {
                    name_bytes(disks[i].0)[k]
                } else {
                    0u8
                }),
        net matches Some(n) ==> (devices[disks.len() as int].device matches Device::Net(d)
            && d.backend == n && d.limit == n.frame_limit() && d.pending_tx is None),
        memory matches Some(v) ==> (devices[devices.len() - 1].device matches Device::Mem(d) && d@
            == v),
{
    assert forall|i: int| 0 <= i < devices.len() implies (#[trigger] devices[i])@.status == 0
        && devices[i]@.queues.interrupt == 0 && devices[i]@.queues.negotiated == 0 by {
        assert(crate::runtime::fresh_device(devices[i]@));
    }
    assert forall|i: int| 0 <= i < disks.len() implies ((
    #[trigger] devices[i]).device matches Device::Block(b) && b.disk == disks[i].1 && b.id@.len()
        == 20 && forall|k: int|
        0 <= k < 20 ==> #[trigger] b.id@[k] == if k < name_bytes(disks[i].0).len() {
            name_bytes(disks[i].0)[k]
        } else {
            0u8
        }) by {
        assert(devices[i].device is Block);
        let b = devices[i].device->Block_0;
        assert(b.id@ == window(name_bytes(disks[i].0), 0, 20));
    }
}

/// A machine is put together unless its layout, a name or its network interface is
/// not as it must be.
pub proof fn sound_machines_are_put_together<BS: BlockStorage, ND: NetDevice>(
    config: VmConfig,
    layout: MachineLayout,
    needs: DeviceRequirements,
    disks: Seq<(String, BS)>,
    net: Option<ND>,
)
    ensures
        assembly_error(config, layout, needs, disks, net) is None <==> {
            &&& crate::placing::accepted(layout, config, needs)
            &&& forall|i: int|
                0 <= i < disks.len() ==> plain_name(name_bytes((#[trigger] disks[i]).0))
            &&& net matches Some(n) ==> 68 <= ND::MTU && ND::MTU + 14 <= n.frame_limit() && n.frame_limit()
                <= 65553 && n.mac()@[0] % 2 == 0 && !(forall|i: int|
                0 <= i < 6 ==> #[trigger] n.mac()@[i] == 0)
        },
{
    crate::placing::accepted_layouts(layout, config, needs);
    assert forall|i: int| 0 <= i < disks.len() implies (plain_name(
        name_bytes((#[trigger] disks[i]).0),
    ) <==> crate::devices::block::valid_name(name_bytes(disks[i].0))) by {
        lemma_plain_name(name_bytes(disks[i].0));
    }
}

/// A letter, a digit, a dot, an underscore or a dash.
pub open spec fn plain_byte(b: u8) -> bool {
    ||| 48 <= b <= 57
    ||| 65 <= b <= 90
    ||| 97 <= b <= 122
    ||| b == 46 || b == 95 || b == 45
}

/// A name of up to twenty such bytes.
pub open spec fn plain_name(name: Seq<u8>) -> bool {
    1 <= name.len() <= 20 && forall|i: int| 0 <= i < name.len() ==> plain_byte(#[trigger] name[i])
}

proof fn lemma_plain_name(name: Seq<u8>)
    ensures
        plain_name(name) <==> crate::devices::block::valid_name(name),
{
}

/// A pause pauses a VM that runs, a resume resumes one that is paused, each with one
/// call to the platform; what is so already stays without a call.
pub proof fn operations_reach_the_platform(
    operation: Operation,
    paused: bool,
    c0: Seq<VmCall>,
    c1: Seq<VmCall>,
    a: Result<(), PlatformError>,
)
    requires
        carried_rel(operation, paused, c0, c1, a),
    ensures
        c1.len() > c0.len() <==> paused == (operation is Resume),
        operation is Pause && !paused ==> c1.drop_last() == c0 && c1.last() == (VmCall::Paused {
            result: a,
        }),
        operation is Resume && paused ==> c1.drop_last() == c0 && c1.last() == (VmCall::Resumed {
            result: a,
        }),
        c1.len() == c0.len() ==> a is Ok && c1 == c0,
{
    if c1.len() > c0.len() {
        assert(c1.drop_last() =~= c0);
    }
}

} // verus!

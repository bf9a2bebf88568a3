//! Shared modern virtio-mmio transport.
use crate::bytes::{get_le64, le64};
use crate::devices::queues::{Queues, QueuesView};
use crate::error::DeviceError;
use crate::guest::{Guest, Memory};
use crate::ring::{moved, one_bit, replace_half, with_high, with_low, Ring};
use vstd::prelude::*;

verus! {

/// Largest number of elements of a queue.
pub const MAX_QUEUE: u16 = 128;

/// Feature bit of a device that follows the current standard.
pub const VERSION_1: u64 = 0x1_0000_0000;

/// The bytes number `offset` on of a configuration, zero beyond its end.
pub open spec fn window(config: Seq<u8>, offset: int, width: int) -> Seq<u8> {
    Seq::new(
        width as nat,
        |i: int|
            if offset + i < config.len() {
                config[offset + i]
            } else {
                0u8
            },
    )
}

/// Copies a read-only device configuration, zero-filling what it lacks.
pub fn read_config(config: &[u8], offset: usize, width: usize) -> (r: Vec<u8>)
    requires
        offset + width <= usize::MAX,
    ensures
        r@ == window(config@, offset as int, width as int),
{
    let mut data: Vec<u8> = Vec::new();
    let mut i: usize = 0;
    while i < width
        invariant
            i <= width,
            offset + width <= usize::MAX,
            data@ =~= window(config@, offset as int, i as int),
        decreases width - i,
    {
        let byte: u8 = if offset + i < config.len() {
            config[offset + i]
        } else {
            0
        };
        data.push(byte);
        i = i + 1;
    }
    data
}

/// A virtio device behind the transport. What its methods do is told by the
/// relations, which each device defines.
///
/// Only proofs look at the ghost functions: an implementation that stands
/// outside them may leave them out.
pub trait VirtioDevice: Sized {
    /// The device's own invariant.
    open spec fn wf(&self) -> bool {
        arbitrary()
    }

    open spec fn id_of(&self) -> u32 {
        arbitrary()
    }

    open spec fn offered(&self) -> u64 {
        arbitrary()
    }

    open spec fn required(&self) -> u64 {
        arbitrary()
    }

    open spec fn queues_of(&self) -> nat {
        arbitrary()
    }

    open spec fn config(&self) -> Seq<u8> {
        arbitrary()
    }

    open spec fn generation_of(&self) -> u32 {
        arbitrary()
    }

    /// What handling a notification of queue `queue` does.
    open spec fn notify_rel(
        d0: Self,
        queue: int,
        q0: QueuesView,
        m0: Memory,
        d1: Self,
        q1: QueuesView,
        m1: Memory,
        r: Result<(), DeviceError>,
    ) -> bool {
        arbitrary()
    }

    /// What a turn of the device without a notification does.
    open spec fn poll_rel(
        d0: Self,
        q0: QueuesView,
        m0: Memory,
        d1: Self,
        q1: QueuesView,
        m1: Memory,
        r: Result<(), DeviceError>,
    ) -> bool {
        arbitrary()
    }

    /// What a reset by the driver does to the device.
    open spec fn reset_rel(d0: Self, d1: Self, r: Result<(), DeviceError>) -> bool {
        arbitrary()
    }

    /// What making the device's data durable does.
    open spec fn flush_rel(d0: Self, d1: Self, r: Result<(), DeviceError>) -> bool {
        arbitrary()
    }

    fn required_features(&self) -> (r: u64)
        ensures
            r == self.required(),
    ;

    fn generation(&self) -> (r: u32)
        ensures
            r == self.generation_of(),
    ;

    fn device_id(&self) -> (r: u32)
        ensures
            r == self.id_of(),
    ;

    fn features(&self) -> (r: u64)
        ensures
            r == self.offered(),
    ;

    fn queue_count(&self) -> (r: usize)
        ensures
            r == self.queues_of(),
    ;

    fn read_config(&self, offset: usize, width: usize) -> (r: Vec<u8>)
        requires
            self.wf(),
            offset + width <= usize::MAX,
        ensures
            r@ == window(self.config(), offset as int, width as int),
    ;

    fn notify(&mut self, queue: usize, queues: &mut Queues, mem: &mut Guest) -> (r: Result<
        (),
        DeviceError,
    >)
        requires
            old(self).wf(),
            old(queues)@.wf(),
            queue < old(queues).rings@.len(),
            old(queues).rings@.len() == old(self).queues_of(),
        ensures
            final(self).wf(),
            final(self).queues_of() == old(self).queues_of(),
            final(queues)@.wf(),
            final(queues)@.kept(old(queues)@),
            final(mem)@.same(old(mem)@),
            Self::notify_rel(
                *old(self),
                queue as int,
                old(queues)@,
                old(mem)@,
                *final(self),
                final(queues)@,
                final(mem)@,
                r,
            ),
    ;

    fn poll(&mut self, queues: &mut Queues, mem: &mut Guest) -> (r: Result<(), DeviceError>)
        requires
            old(self).wf(),
            old(queues)@.wf(),
            old(queues).rings@.len() == old(self).queues_of(),
        ensures
            final(self).wf(),
            final(self).queues_of() == old(self).queues_of(),
            final(queues)@.wf(),
            final(queues)@.kept(old(queues)@),
            final(mem)@.same(old(mem)@),
            Self::poll_rel(
                *old(self),
                old(queues)@,
                old(mem)@,
                *final(self),
                final(queues)@,
                final(mem)@,
                r,
            ),
    ;

    fn reset(&mut self) -> (r: Result<(), DeviceError>)
        requires
            old(self).wf(),
        ensures
            final(self).wf(),
            final(self).queues_of() == old(self).queues_of(),
            Self::reset_rel(*old(self), *final(self), r),
    ;

    fn flush(&mut self) -> (r: Result<(), DeviceError>)
        requires
            old(self).wf(),
        ensures
            final(self).wf(),
            final(self).queues_of() == old(self).queues_of(),
            Self::flush_rel(*old(self), *final(self), r),
    ;
}

/// A device with its registers and queues.
pub struct Mmio<D: VirtioDevice> {
    pub device: D,
    pub queues: Queues,
    pub feature_sel: u32,
    pub driver_sel: u32,
    pub queue_sel: u32,
    /// Features the device offers.
    pub features: u64,
    /// Progress of the driver.
    pub status: u32,
}

/// A device with its registers and queues, as plain values.
#[verifier::ext_equal]
pub struct MmioView<D> {
    pub device: D,
    pub queues: QueuesView,
    pub feature_sel: u32,
    pub driver_sel: u32,
    pub queue_sel: u32,
    pub features: u64,
    pub status: u32,
}

/// The driver is running the device: it has acknowledged, accepted the
/// features, and neither side has failed.
pub open spec fn running(status: u32) -> bool {
    status & 0xcf == 0xf
}

/// The driver's choice of features cannot be accepted.
pub open spec fn refused(negotiated: u64, features: u64, required: u64) -> bool {
    ||| negotiated & !features != 0
    ||| negotiated & VERSION_1 == 0
    ||| negotiated & required != required
}

/// The status after the driver wrote `value`: features that cannot be accepted
/// are not confirmed.
pub open spec fn confirmed(value: u32, negotiated: u64, features: u64, required: u64) -> u32 {
    if value & 8 != 0 && refused(negotiated, features, required) {
        value & !8
    } else {
        value
    }
}

/// A ring after its register at `offset` was written, and the answer.
pub open spec fn configured(
    ring: Ring,
    offset: u64,
    value: u32,
    regions: Seq<(u64, u64)>,
) -> (Ring, Result<(), DeviceError>) {
    if ring.ready && !(offset == 0x44 && value == 0) {
        (ring, Err(DeviceError::QueueConfigurationWhileReady))
    } else if offset == 0x38 {
        if value > MAX_QUEUE {
            (ring, Err(DeviceError::QueueTooLarge { size: value, max: MAX_QUEUE }))
        } else if value <= ring.max_size && one_bit(value as u16) {
            (Ring { size: value as u16, ..ring }, Ok(()))
        } else {
            (ring, Err(DeviceError::Queue))
        }
    } else if offset == 0x44 {
        let next = Ring { ready: value == 1, ..ring };
        if value > 1 {
            (ring, Err(DeviceError::InvalidQueueReady { value }))
        } else if value == 1 && !next.valid(regions) {
            (next, Err(DeviceError::InvalidQueueMemory))
        } else {
            (next, Ok(()))
        }
    } else if offset == 0x80 {
        (Ring { desc_table: moved(ring.desc_table, with_low(ring.desc_table, value), 16), ..ring }, Ok(()))
    } else if offset == 0x84 {
        (Ring { desc_table: moved(ring.desc_table, with_high(ring.desc_table, value), 16), ..ring }, Ok(()))
    } else if offset == 0x90 {
        (Ring { avail_ring: moved(ring.avail_ring, with_low(ring.avail_ring, value), 2), ..ring }, Ok(()))
    } else if offset == 0x94 {
        (Ring { avail_ring: moved(ring.avail_ring, with_high(ring.avail_ring, value), 2), ..ring }, Ok(()))
    } else if offset == 0xa0 {
        (Ring { used_ring: moved(ring.used_ring, with_low(ring.used_ring, value), 4), ..ring }, Ok(()))
    } else {
        (Ring { used_ring: moved(ring.used_ring, with_high(ring.used_ring, value), 4), ..ring }, Ok(()))
    }
}

/// The registers that configure the selected queue.
pub open spec fn is_queue_register(offset: u64) -> bool {
    ||| offset == 0x38
    ||| offset == 0x44
    ||| offset == 0x80
    ||| offset == 0x84
    ||| offset == 0x90
    ||| offset == 0x94
    ||| offset == 0xa0
    ||| offset == 0xa4
}

impl<D: VirtioDevice> View for Mmio<D> {
    type V = MmioView<D>;

    open spec fn view(&self) -> MmioView<D> {
        MmioView {
            device: self.device,
            queues: self.queues@,
            feature_sel: self.feature_sel,
            driver_sel: self.driver_sel,
            queue_sel: self.queue_sel,
            features: self.features,
            status: self.status,
        }
    }
}

impl<D: VirtioDevice> MmioView<D> {
    /// The device is well-formed and has its queues.
    pub open spec fn wf(self) -> bool {
        &&& self.device.wf()
        &&& self.queues.wf()
        &&& self.queues.rings.len() == self.device.queues_of()
        &&& forall|i: int|
            0 <= i < self.queues.rings.len() ==> (#[trigger] self.queues.rings[i]).max_size
                == MAX_QUEUE
    }

    /// A device as it is before the driver finds it.
    pub open spec fn fresh(device: D, features: u64) -> MmioView<D> {
        MmioView {
            device,
            queues: QueuesView {
                rings: Seq::new(device.queues_of(), |i: int| Ring::fresh(MAX_QUEUE)),
                negotiated: 0,
                interrupt: 0,
            },
            feature_sel: 0,
            driver_sel: 0,
            queue_sel: 0,
            features,
            status: 0,
        }
    }

    /// The transport of `device` before a driver comes up.
    pub open spec fn powered_up(device: D) -> MmioView<D> {
        MmioView::fresh(device, device.offered() | VERSION_1)
    }

    /// The configuration space has changed, and the driver is to be told.
    pub open spec fn reconfigured(self) -> MmioView<D> {
        MmioView {
            queues: QueuesView { interrupt: self.queues.interrupt | 2, ..self.queues },
            ..self
        }
    }

    /// The device asks for attention.
    pub open spec fn interrupts(self) -> bool {
        self.queues.interrupt != 0
    }

    /// What a read of `width` bytes at `offset` gives.
    pub open spec fn register(self, offset: u64, width: int) -> int {
        if width != 1 && width != 2 && width != 4 && width != 8 {
            0
        } else if 0x100 <= offset && offset + width <= 0x1000 {
            le64(
                window(window(self.device.config(), offset - 0x100, width), 0, 8),
                0,
            )
        } else if width != 4 {
            0
        } else if offset == 0 {
            0x74726976
        } else if offset == 4 {
            2
        } else if offset == 8 {
            self.device.id_of() as int
        } else if offset == 12 {
            0x57564d4d
        } else if offset == 0x10 && self.feature_sel == 0 {
            (self.features % 0x1_0000_0000) as int
        } else if offset == 0x10 && self.feature_sel == 1 {
            (self.features / 0x1_0000_0000) as int
        } else if offset == 0x34 && self.queue_sel < self.queues.rings.len() {
            MAX_QUEUE as int
        } else if offset == 0x44 && self.queue_sel < self.queues.rings.len()
            && self.queues.rings[self.queue_sel as int].ready {
            1
        } else if offset == 0x60 {
            self.queues.interrupt as int
        } else if offset == 0x70 {
            self.status as int
        } else if offset == 0xfc {
            self.device.generation_of() as int
        } else {
            0
        }
    }

    /// What writing the status register does, but for a reset.
    pub open spec fn status_written(self, value: u32, regions: Seq<(u64, u64)>) -> (
        MmioView<D>,
        Result<(), DeviceError>,
    ) {
        let status = confirmed(
            value,
            self.queues.negotiated,
            self.features,
            self.device.required(),
        );
        let next = MmioView { status, ..self };
        if value & self.status != self.status {
            (self, Err(DeviceError::StatusBitsCleared))
        } else if value & 4 != 0 && !(status & 0xb == 0xb && forall|i: int|
            0 <= i < self.queues.rings.len() ==> (#[trigger] self.queues.rings[i]).valid(regions)) {
            (next, Err(DeviceError::DriverNotReady))
        } else {
            (next, Ok(()))
        }
    }

    /// What writing a register of the selected queue does.
    pub open spec fn queue_written(
        self,
        offset: u64,
        value: u32,
        regions: Seq<(u64, u64)>,
    ) -> (MmioView<D>, Result<(), DeviceError>) {
        let sel = self.queue_sel as int;
        if sel >= self.queues.rings.len() {
            (self, Ok(()))
        } else if self.status & 4 != 0 {
            (self, Err(DeviceError::QueueConfigurationAfterDriverOk))
        } else {
            let (ring, r) = configured(self.queues.rings[sel], offset, value, regions);
            (MmioView { queues: self.queues.with_ring(sel, ring), ..self }, r)
        }
    }

    /// What writing `value` at `offset` does, but for a reset and a
    /// notification, which involve the device.
    pub open spec fn written(self, offset: u64, value: u32, regions: Seq<(u64, u64)>) -> (
        MmioView<D>,
        Result<(), DeviceError>,
    ) {
        let q = self.queues;
        if offset == 0x14 {
            (MmioView { feature_sel: value, ..self }, Ok(()))
        } else if offset == 0x24 {
            (MmioView { driver_sel: value, ..self }, Ok(()))
        } else if offset == 0x30 {
            (MmioView { queue_sel: value, ..self }, Ok(()))
        } else if offset == 0x20 && self.status & 8 == 0 && self.driver_sel == 0 {
            (
                MmioView {
                    queues: QueuesView { negotiated: with_low(q.negotiated, value) as u64, ..q },
                    ..self
                },
                Ok(()),
            )
        } else if offset == 0x20 && self.status & 8 == 0 && self.driver_sel == 1 {
            (
                MmioView {
                    queues: QueuesView { negotiated: with_high(q.negotiated, value) as u64, ..q },
                    ..self
                },
                Ok(()),
            )
        } else if offset == 0x70 {
            self.status_written(value, regions)
        } else if offset == 0x64 {
            (
                MmioView {
                    queues: QueuesView { interrupt: q.interrupt & !value, ..q },
                    ..self
                },
                Ok(()),
            )
        } else if is_queue_register(offset) {
            self.queue_written(offset, value, regions)
        } else {
            (self, Ok(()))
        }
    }

    /// The driver notifies one of the queues of a running device.
    pub open spec fn notifies(self, offset: u64, value: u32) -> bool {
        offset == 0x50 && running(self.status) && value < self.queues.rings.len()
    }
}

/// What writing `value` at `offset` does.
pub open spec fn write_rel<D: VirtioDevice>(
    s0: MmioView<D>,
    offset: u64,
    value: u32,
    m0: Memory,
    s1: MmioView<D>,
    m1: Memory,
    r: Result<(), DeviceError>,
) -> bool {
    if offset == 0x70 && value == 0 {
        &&& m1 == m0
        &&& D::reset_rel(s0.device, s1.device, r)
        &&& r is Err ==> s1 == (MmioView { device: s1.device, ..s0 })
        &&& r is Ok ==> s1 == MmioView::fresh(s1.device, s0.features)
    } else if s0.notifies(offset, value) {
        &&& D::notify_rel(
            s0.device,
            value as int,
            s0.queues,
            m0,
            s1.device,
            s1.queues,
            m1,
            r,
        )
        &&& s1 == (MmioView { device: s1.device, queues: s1.queues, ..s0 })
    } else {
        m1 == m0 && (s1, r) == s0.written(offset, value, m0.regions)
    }
}

proof fn lemma_max_queue()
    ensures
        one_bit(MAX_QUEUE),
{
    assert(128u16 & 127u16 == 0) by (bit_vector);
}

impl<D: VirtioDevice> Mmio<D> {
    pub fn new(device: D) -> (r: Self)
        requires
            device.wf(),
        ensures
            r@ == MmioView::powered_up(device),
            r@.wf(),
    {
        let features: u64 = device.features() | VERSION_1;
        let count: usize = device.queue_count();
        let mut rings: Vec<Ring> = Vec::new();
        let mut i: usize = 0;
        proof {
            lemma_max_queue();
        }
        while i < count
            invariant
                i <= count,
                one_bit(MAX_QUEUE),
                rings@.len() == i,
                forall|k: int|
                    0 <= k < i ==> (#[trigger] rings@[k]) == Ring::fresh(MAX_QUEUE)
                        && rings@[k].wf(),
            decreases count - i,
        {
            rings.push(Ring::new(MAX_QUEUE));
            i = i + 1;
        }
        let r: Mmio<D> = Mmio {
            device,
            queues: Queues { rings, negotiated: 0, interrupt: 0 },
            feature_sel: 0,
            driver_sel: 0,
            queue_sel: 0,
            features,
            status: 0,
        };
        assert(r@ =~= MmioView::fresh(device, device.offered() | VERSION_1));
        r
    }

    pub fn interrupt_pending(&self) -> (r: bool)
        ensures
            r == self@.interrupts(),
    {
        self.queues.interrupt != 0
    }

    pub fn config_changed(&mut self)
        ensures
            final(self)@ == old(self)@.reconfigured(),
    {
        self.queues.interrupt = self.queues.interrupt | 2;
    }

    pub fn flush(&mut self) -> (r: Result<(), DeviceError>)
        requires
            old(self)@.wf(),
        ensures
            final(self)@.wf(),
            final(self)@ == (MmioView { device: final(self).device, ..old(self)@ }),
            D::flush_rel(old(self).device, final(self).device, r),
    {
        self.device.flush()
    }

    pub fn active(&self) -> (r: bool)
        ensures
            r == running(self.status),
    {
        self.status & 0xcf == 0xf
    }

    /// Gives a running device a turn.
    pub fn poll(&mut self, mem: &mut Guest) -> (r: Result<(), DeviceError>)
        requires
            old(self)@.wf(),
        ensures
            final(self)@.wf(),
            final(mem)@.same(old(mem)@),
            final(self)@ == (MmioView {
                device: final(self).device,
                queues: final(self).queues@,
                ..old(self)@
            }),
            if running(old(self).status) {
                D::poll_rel(
                    old(self).device,
                    old(self).queues@,
                    old(mem)@,
                    final(self).device,
                    final(self).queues@,
                    final(mem)@,
                    r,
                )
            } else {
                r == Ok::<(), DeviceError>(()) && final(self)@ == old(self)@ && final(mem)@ == old(
                    mem,
                )@
            },
    {
        if self.active() {
            return self.device.poll(&mut self.queues, mem);
        }
        Ok(())
    }

    pub fn read(&self, offset: u64, width: usize) -> (r: u64)
        requires
            self@.wf(),
        ensures
            r == self@.register(offset, width as int),
    {
        if !(width == 1 || width == 2 || width == 4 || width == 8) {
            return 0;
        }
        if 0x100 <= offset && offset < 0x1000 && offset + width as u64 <= 0x1000 {
            let data: Vec<u8> = self.device.read_config((offset - 0x100) as usize, width);
            let full: Vec<u8> = read_config(data.as_slice(), 0, 8);
            return get_le64(full.as_slice(), 0);
        }
        if width != 4 {
            return 0;
        }
        if offset == 0 {
            0x74726976
        } else if offset == 4 {
            2
        } else if offset == 8 {
            self.device.device_id() as u64
        } else if offset == 12 {
            0x57564d4d
        } else if offset == 0x10 && self.feature_sel == 0 {
            self.features % 0x1_0000_0000
        } else if offset == 0x10 && self.feature_sel == 1 {
            self.features / 0x1_0000_0000
        } else if offset == 0x34 && (self.queue_sel as usize) < self.queues.rings.len() {
            MAX_QUEUE as u64
        } else if offset == 0x44 && (self.queue_sel as usize) < self.queues.rings.len()
            && self.queues.rings[self.queue_sel as usize].ready {
            1
        } else if offset == 0x60 {
            self.queues.interrupt as u64
        } else if offset == 0x70 {
            self.status as u64
        } else if offset == 0xfc {
            self.device.generation() as u64
        } else {
            0
        }
    }

    pub fn write(&mut self, offset: u64, value: u32, mem: &mut Guest) -> (r: Result<
        (),
        DeviceError,
    >)
        requires
            old(self)@.wf(),
        ensures
            final(self)@.wf(),
            final(mem)@.same(old(mem)@),
            write_rel(old(self)@, offset, value, old(mem)@, final(self)@, final(mem)@, r),
    {
        if offset == 0x14 {
            self.feature_sel = value;
        } else if offset == 0x24 {
            self.driver_sel = value;
        } else if offset == 0x30 {
            self.queue_sel = value;
        } else if offset == 0x20 {
            if self.status & 8 == 0 && self.driver_sel < 2 {
                let high: bool = self.driver_sel == 1;
                self.queues.negotiated = replace_half(self.queues.negotiated, value, high);
            }
        } else if offset == 0x70 {
            if value == 0 {
                return self.reset();
            }
            return self.set_status(value, mem);
        } else if offset == 0x64 {
            self.queues.interrupt = self.queues.interrupt & !value;
        } else if offset == 0x50 {
            if self.active() && (value as usize) < self.queues.rings.len() {
                return self.device.notify(value as usize, &mut self.queues, mem);
            }
        } else if offset == 0x38 || offset == 0x44 || offset == 0x80 || offset == 0x84 || offset
            == 0x90 || offset == 0x94 || offset == 0xa0 || offset == 0xa4 {
            return self.set_queue(offset, value, mem);
        }
        Ok(())
    }

    fn reset(&mut self) -> (r: Result<(), DeviceError>)
        requires
            old(self)@.wf(),
        ensures
            final(self)@.wf(),
            D::reset_rel(old(self).device, final(self).device, r),
            r is Err ==> final(self)@ == (MmioView { device: final(self).device, ..old(self)@ }),
            r is Ok ==> final(self)@ == MmioView::fresh(final(self).device, old(self).features),
    {
        self.device.reset()?;
        let mut i: usize = 0;
        let ghost device = self.device;
        proof {
            lemma_max_queue();
        }
        while i < self.queues.rings.len()
            invariant
                i <= self.queues.rings@.len(),
                one_bit(MAX_QUEUE),
                self.queues.rings@.len() == device.queues_of(),
                self.device == device,
                self.features == old(self).features,
                forall|k: int|
                    0 <= k < self.queues.rings@.len() ==> (#[trigger] self.queues.rings@[k]).wf()
                        && self.queues.rings@[k].max_size == MAX_QUEUE,
                forall|k: int|
                    0 <= k < i ==> (#[trigger] self.queues.rings@[k]) == Ring::fresh(MAX_QUEUE),
            decreases self.queues.rings@.len() - i,
        {
            let mut ring: Ring = self.queues.rings[i];
            assert(self.queues.rings@[i as int].wf());
            ring.reset();
            self.queues.rings.set(i, ring);
            i = i + 1;
        }
        self.queues.negotiated = 0;
        self.queues.interrupt = 0;
        self.feature_sel = 0;
        self.driver_sel = 0;
        self.queue_sel = 0;
        self.status = 0;
        assert(self@ =~= MmioView::fresh(self.device, old(self).features));
        Ok(())
    }

    fn set_status(&mut self, value: u32, mem: &Guest) -> (r: Result<(), DeviceError>)
        requires
            old(self)@.wf(),
        ensures
            final(self)@.wf(),
            (final(self)@, r) == old(self)@.status_written(value, mem@.regions),
    {
        if value & self.status != self.status {
            return Err(DeviceError::StatusBitsCleared);
        }
        self.status = value;
        let required: u64 = self.device.required_features();
        if value & 8 != 0 && (self.queues.negotiated & !self.features != 0
            || self.queues.negotiated & VERSION_1 == 0 || self.queues.negotiated & required
            != required) {
            self.status = value & !8;
        }
        if value & 4 != 0 {
            if !(self.status & 0xb == 0xb && self.all_valid(mem)) {
                return Err(DeviceError::DriverNotReady);
            }
        }
        Ok(())
    }

    fn all_valid(&self, mem: &Guest) -> (r: bool)
        requires
            self@.wf(),
        ensures
            r == forall|i: int|
                0 <= i < self@.queues.rings.len() ==> (#[trigger] self@.queues.rings[i]).valid(
                    mem@.regions,
                ),
    {
        let mut i: usize = 0;
        while i < self.queues.rings.len()
            invariant
                i <= self.queues.rings@.len(),
                self@.wf(),
                forall|k: int|
                    0 <= k < i ==> (#[trigger] self@.queues.rings[k]).valid(mem@.regions),
            decreases self.queues.rings@.len() - i,
        {
            assert(self@.queues.rings[i as int].wf());
            if !self.queues.rings[i].is_valid(mem) {
                assert(!self@.queues.rings[i as int].valid(mem@.regions));
                return false;
            }
            i = i + 1;
        }
        true
    }

    fn set_queue(&mut self, offset: u64, value: u32, mem: &Guest) -> (r: Result<(), DeviceError>)
        requires
            old(self)@.wf(),
            is_queue_register(offset),
        ensures
            final(self)@.wf(),
            (final(self)@, r) == old(self)@.queue_written(offset, value, mem@.regions),
    {
        let sel: usize = self.queue_sel as usize;
        if sel >= self.queues.rings.len() {
            return Ok(());
        }
        if self.status & 4 != 0 {
            return Err(DeviceError::QueueConfigurationAfterDriverOk);
        }
        let ghost s0 = self@;
        let mut ring: Ring = self.queues.rings[sel];
        assert(s0.queues.rings[sel as int].wf());
        let r: Result<(), DeviceError> = set_ring(&mut ring, offset, value, mem);
        self.queues.rings.set(sel, ring);
        assert forall|i: int| 0 <= i < self@.queues.rings.len() implies (
        #[trigger] self@.queues.rings[i]).wf() && self@.queues.rings[i].max_size == MAX_QUEUE by {
            if i != sel {
                assert(s0.queues.rings[i].wf());
            }
        }
        assert(self@.queues =~= s0.queues.with_ring(sel as int, ring));
        r
    }
}

fn set_ring(ring: &mut Ring, offset: u64, value: u32, mem: &Guest) -> (r: Result<(), DeviceError>)
    requires
        old(ring).wf(),
        old(ring).max_size == MAX_QUEUE,
        is_queue_register(offset),
    ensures
        final(ring).wf(),
        final(ring).max_size == MAX_QUEUE,
        (*final(ring), r) == configured(*old(ring), offset, value, mem@.regions),
{
    if ring.ready && !(offset == 0x44 && value == 0) {
        return Err(DeviceError::QueueConfigurationWhileReady);
    }
    if offset == 0x38 {
        if value > MAX_QUEUE as u32 {
            return Err(DeviceError::QueueTooLarge { size: value, max: MAX_QUEUE });
        }
        if !ring.try_set_size(value as u16) {
            return Err(DeviceError::Queue);
        }
    } else if offset == 0x44 {
        if value > 1 {
            return Err(DeviceError::InvalidQueueReady { value });
        }
        ring.set_ready(value == 1);
        if value == 1 && !ring.is_valid(mem) {
            return Err(DeviceError::InvalidQueueMemory);
        }
    } else if offset == 0x80 || offset == 0x84 {
        ring.set_desc_table_address(value, offset == 0x84);
    } else if offset == 0x90 || offset == 0x94 {
        ring.set_avail_ring_address(value, offset == 0x94);
    } else {
        ring.set_used_ring_address(value, offset == 0xa4);
    }
    Ok(())
}

/// The features that the driver confirmed can be accepted.
pub open spec fn negotiated_soundly<D: VirtioDevice>(s: MmioView<D>) -> bool {
    s.status & 8 != 0 ==> !refused(s.queues.negotiated, s.features, s.device.required())
}

/// A fresh device has confirmed nothing, and no register write confirms features
/// that cannot be accepted, nor changes confirmed ones.
pub proof fn confirmed_features_are_accepted<D: VirtioDevice>(
    s: MmioView<D>,
    offset: u64,
    value: u32,
    regions: Seq<(u64, u64)>,
)
    requires
        negotiated_soundly(s),
    ensures
        negotiated_soundly(MmioView::fresh(s.device, s.features)),
        negotiated_soundly(s.written(offset, value, regions).0),
        s.status & 8 != 0 ==> s.written(offset, value, regions).0.queues.negotiated
            == s.queues.negotiated,
{
    assert(0u32 & 8 == 0) by (bit_vector);
    assert((value & !8u32) & 8 == 0) by (bit_vector);
}

/// Without a reset the driver cannot take back a step of its progress.
pub proof fn progress_is_never_taken_back<D: VirtioDevice>(
    s: MmioView<D>,
    offset: u64,
    value: u32,
    regions: Seq<(u64, u64)>,
)
    requires
        negotiated_soundly(s),
    ensures
        s.written(offset, value, regions).0.status & s.status == s.status,
{
    let old_status = s.status;
    assert(old_status & old_status == old_status) by (bit_vector);
    assert(value & old_status == old_status && old_status & 8 == 0 ==> (value & !8u32) & old_status
        == old_status) by (bit_vector);
    assert(value & old_status == old_status && old_status & 8 != 0 ==> value & 8 != 0)
        by (bit_vector);
}

/// A driver that takes over a device has confirmed its features and given it
/// valid queues; from then on it cannot change them.
pub proof fn a_driven_device_has_valid_queues<D: VirtioDevice>(
    s: MmioView<D>,
    offset: u64,
    value: u32,
    regions: Seq<(u64, u64)>,
)
    ensures
        offset == 0x70 && value & 4 != 0 && s.written(offset, value, regions).1 is Ok ==> {
            let next = s.written(offset, value, regions).0;
            &&& next.status & 0xb == 0xb
            &&& forall|i: int|
                0 <= i < next.queues.rings.len() ==> (#[trigger] next.queues.rings[i]).valid(
                    regions,
                )
        },
        s.status & 4 != 0 ==> s.written(offset, value, regions).0.queues.rings == s.queues.rings,
{
}

} // verus!

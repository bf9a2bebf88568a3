//! Virtio devices and their transport.
pub mod acting;
pub mod asks;
pub mod block;
pub mod blocks;
pub mod buffers;
pub mod chains;
pub mod frames;
pub mod memory;
pub mod mmio;
pub mod net;
pub mod places;
pub mod plugging;
pub mod queues;
pub mod registers;
pub mod requests;

use crate::error::DeviceError;
use crate::guest::{Guest, Memory};
use crate::net::NetDevice;
use crate::storage::BlockStorage;
use block::Block;
use memory::VirtioMem;
use mmio::VirtioDevice;
use net::Net;
use queues::{Queues, QueuesView};
use vstd::prelude::*;

verus! {

/// Different device types share a transport without erasing backend types.
pub enum Device<BS: BlockStorage, ND: NetDevice> {
    Block(Block<BS>),
    Net(Net<ND>),
    Mem(VirtioMem),
}

impl<BS: BlockStorage, ND: NetDevice> VirtioDevice for Device<BS, ND> {
    open spec fn wf(&self) -> bool {
        match self {
            Device::Block(d) => d.wf(),
            Device::Net(d) => d.wf(),
            Device::Mem(d) => d.wf(),
        }
    }

    open spec fn id_of(&self) -> u32 {
        match self {
            Device::Block(d) => d.id_of(),
            Device::Net(d) => d.id_of(),
            Device::Mem(d) => d.id_of(),
        }
    }

    open spec fn offered(&self) -> u64 {
        match self {
            Device::Block(d) => d.offered(),
            Device::Net(d) => d.offered(),
            Device::Mem(d) => d.offered(),
        }
    }

    open spec fn required(&self) -> u64 {
        match self {
            Device::Block(d) => d.required(),
            Device::Net(d) => d.required(),
            Device::Mem(d) => d.required(),
        }
    }

    open spec fn queues_of(&self) -> nat {
        match self {
            Device::Block(d) => d.queues_of(),
            Device::Net(d) => d.queues_of(),
            Device::Mem(d) => d.queues_of(),
        }
    }

    open spec fn config(&self) -> Seq<u8> {
        match self {
            Device::Block(d) => d.config(),
            Device::Net(d) => d.config(),
            Device::Mem(d) => d.config(),
        }
    }

    open spec fn generation_of(&self) -> u32 {
        match self {
            Device::Block(d) => d.generation_of(),
            Device::Net(d) => d.generation_of(),
            Device::Mem(d) => d.generation_of(),
        }
    }

    open spec fn notify_rel(
        d0: Self,
        queue: int,
        q0: QueuesView,
        m0: Memory,
        d1: Self,
        q1: QueuesView,
        m1: Memory,
        r: Result<(), DeviceError>,
    ) -> bool {
        match (d0, d1) {
            (Device::Block(a), Device::Block(b)) => Block::<BS>::notify_rel(
                a,
                queue,
                q0,
                m0,
                b,
                q1,
                m1,
                r,
            ),
            (Device::Net(a), Device::Net(b)) => Net::<ND>::notify_rel(
                a,
                queue,
                q0,
                m0,
                b,
                q1,
                m1,
                r,
            ),
            (Device::Mem(a), Device::Mem(b)) => VirtioMem::notify_rel(
                a,
                queue,
                q0,
                m0,
                b,
                q1,
                m1,
                r,
            ),
            _ => false,
        }
    }

    open spec fn poll_rel(
        d0: Self,
        q0: QueuesView,
        m0: Memory,
        d1: Self,
        q1: QueuesView,
        m1: Memory,
        r: Result<(), DeviceError>,
    ) -> bool {
        match (d0, d1) {
            (Device::Block(a), Device::Block(b)) => Block::<BS>::poll_rel(a, q0, m0, b, q1, m1, r),
            (Device::Net(a), Device::Net(b)) => Net::<ND>::poll_rel(a, q0, m0, b, q1, m1, r),
            (Device::Mem(a), Device::Mem(b)) => VirtioMem::poll_rel(a, q0, m0, b, q1, m1, r),
            _ => false,
        }
    }

    open spec fn reset_rel(d0: Self, d1: Self, r: Result<(), DeviceError>) -> bool {
        match (d0, d1) {
            (Device::Block(a), Device::Block(b)) => Block::<BS>::reset_rel(a, b, r),
            (Device::Net(a), Device::Net(b)) => Net::<ND>::reset_rel(a, b, r),
            (Device::Mem(a), Device::Mem(b)) => VirtioMem::reset_rel(a, b, r),
            _ => false,
        }
    }

    open spec fn flush_rel(d0: Self, d1: Self, r: Result<(), DeviceError>) -> bool {
        match (d0, d1) {
            (Device::Block(a), Device::Block(b)) => Block::<BS>::flush_rel(a, b, r),
            (Device::Net(a), Device::Net(b)) => Net::<ND>::flush_rel(a, b, r),
            (Device::Mem(a), Device::Mem(b)) => VirtioMem::flush_rel(a, b, r),
            _ => false,
        }
    }

    fn required_features(&self) -> (r: u64) {
        match self {
            Device::Block(d) => d.required_features(),
            Device::Net(d) => d.required_features(),
            Device::Mem(d) => d.required_features(),
        }
    }

    fn generation(&self) -> (r: u32) {
        match self {
            Device::Block(d) => d.generation(),
            Device::Net(d) => d.generation(),
            Device::Mem(d) => d.generation(),
        }
    }

    fn device_id(&self) -> (r: u32) {
        match self {
            Device::Block(d) => d.device_id(),
            Device::Net(d) => d.device_id(),
            Device::Mem(d) => d.device_id(),
        }
    }

    fn features(&self) -> (r: u64) {
        match self {
            Device::Block(d) => d.features(),
            Device::Net(d) => d.features(),
            Device::Mem(d) => d.features(),
        }
    }

    fn queue_count(&self) -> (r: usize) {
        match self {
            Device::Block(d) => d.queue_count(),
            Device::Net(d) => d.queue_count(),
            Device::Mem(d) => d.queue_count(),
        }
    }

    fn read_config(&self, offset: usize, width: usize) -> (r: Vec<u8>) {
        match self {
            Device::Block(d) => d.read_config(offset, width),
            Device::Net(d) => d.read_config(offset, width),
            Device::Mem(d) => d.read_config(offset, width),
        }
    }

    fn notify(&mut self, queue: usize, queues: &mut Queues, mem: &mut Guest) -> (r: Result<
        (),
        DeviceError,
    >) {
        match self {
            Device::Block(d) => d.notify(queue, queues, mem),
            Device::Net(d) => d.notify(queue, queues, mem),
            Device::Mem(d) => d.notify(queue, queues, mem),
        }
    }

    fn poll(&mut self, queues: &mut Queues, mem: &mut Guest) -> (r: Result<(), DeviceError>) {
        match self {
            Device::Block(d) => d.poll(queues, mem),
            Device::Net(d) => d.poll(queues, mem),
            Device::Mem(d) => d.poll(queues, mem),
        }
    }

    fn reset(&mut self) -> (r: Result<(), DeviceError>) {
        match self {
            Device::Block(d) => d.reset(),
            Device::Net(d) => d.reset(),
            Device::Mem(d) => d.reset(),
        }
    }

    fn flush(&mut self) -> (r: Result<(), DeviceError>) {
        match self {
            Device::Block(d) => d.flush(),
            Device::Net(d) => d.flush(),
            Device::Mem(d) => d.flush(),
        }
    }
}

} // verus!

//! Device models, boot layout and control rules of a small ARM64 virtual
//! machine monitor.
//!
//! The crate holds everything that decides: the virtio transport and its
//! devices, the serial port, the machine layout, the device tree, the vCPU
//! exits and the lifecycle of a VM. What touches the host (files, sockets,
//! threads, the hypervisor) lives in the program around it.
pub mod arm64;
pub mod boot;
pub mod bounds;
pub mod bytes;
pub mod cli;
pub mod control;
pub mod described;
pub mod devices;
pub mod disk;
pub mod disks;
pub mod error;
pub mod fdt;
pub mod guest;
pub mod images;
pub mod lifecycle;
pub mod links;
pub mod math;
pub mod memory;
pub mod net;
pub mod placing;
pub mod platform;
pub mod protocol;
pub mod record;
pub mod ring;
pub mod running;
pub mod runtime;
pub mod serial;
pub mod storage;
pub mod terminal;
pub mod tree;
pub mod vmnet;

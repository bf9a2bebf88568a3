# w-vmm

A small virtual machine monitor for ARM64 Linux guests on Apple Silicon, with the
part that decides written and proved in Verus.

A VM has one or more vCPUs, base memory, optional dynamic memory (virtio-mem), a
16550 serial port, named qcow2 disks (virtio-blk) and an optional network
interface (virtio-net). It is started from the command line and controlled over
a local socket.

## Layout

- `src/` is the library. Every function has a contract that Verus proves; the
  contracts of the outside crates it calls are stated beside the calls.
  - `guest`, `record`, `ring`, `bytes`, `math`: guest memory, the record of what is
    done to it, split virtqueues, arithmetic.
  - `devices/`: the virtio-mmio transport, disks, network, dynamic memory.
  - `serial`, `storage`, `disk`, `disks`, `net`, `vmnet`, `memory`: the host side of
    each device.
  - `platform`, `placing`: what a platform has to offer, and which layouts of it
    are accepted.
  - `boot`, `fdt`, `tree`: the layout of the machine and its device tree.
  - `arm64/`: vCPU power states, exits, the life of a vCPU, the built-in machine.
  - `control`, `runtime`: the lifecycle of a VM and its run loop.
  - `cli`, `protocol`, `terminal`, `error`: what the program around it decides.
- `app/` is the program: files, sockets, threads, signals and the bindings of
  Hypervisor.framework and vmnet.framework. It embeds the guest from
  `assets/Image` and `assets/initramfs.cpio.gz`. On other hosts it builds without
  a platform.
- `tests/` runs the library on concrete values.

## Models

Guest memory is shared with the guest, so its contents are not modelled. What is
modelled is which allocation backs which addresses, and the record of the accesses
that the devices make. There is one view of the memory of a guest, and only the
functions that access it make its record longer, so a contract that speaks of the
record says which bytes are written, in which order, and that no others are. The
one exception is a used element whose place is mapped only in part: it is recorded
that it was begun, not how far it came. What was read is whatever the guest had put
there. A backend that is handed buffers of the guest accesses nothing else.

The memory itself can be had from a view, too. In `app/` the kernel loader fills
guest memory that way before the guest runs, which no record shows, and the disk
and network backends reach the buffers they were handed, which their contracts
record.

Every mapping that a platform is asked for names the allocation. From the end of
startup on, whenever no request of the guest is being served, what is mapped for it
is what the devices see, unless the undoing of a failed mapping has failed.

Disks, networks, serial ports and platforms are traits; their contracts record the
calls with their answers, and the contracts of the devices and of the run loop say
exactly which calls are made and what follows from each answer.

The state that dynamic memory shares with its controllers is a plain value. The run
loop brings it up to date in the turn in which the guest changes the device.

## Use

```sh
w-vmm run --vcpus 4 --disk data.qcow2 --virtio-mem-size-mib 1024 \
  --control-socket /tmp/w-vmm.sock
w-vmm memory-set --socket /tmp/w-vmm.sock --requested-mib 768
w-vmm status --socket /tmp/w-vmm.sock
```

`Ctrl-]` stops the VM from its terminal. Disks are flushed and the terminal is
restored on every ordered way out.

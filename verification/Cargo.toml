[package]
name = "w-vmm"
version = "0.1.0"
edition = "2021"
publish = false

[dependencies]
vm-memory = { version = "=0.18.0", features = ["backend-mmap"] }
virtio-queue = "=0.18.0"
virtio-bindings = "=0.2.7"
vm-superio = "=0.8.2"
vm-fdt = "=0.3.0"
linux-loader = { version = "=0.14.0", features = ["pe"] }
imago = { version = "=0.2.6", default-features = false, features = ["sync", "vm-memory"] }
libc = "=0.2.191"
signal-hook = "=0.4.6"
clap = { version = "=4.6.7", features = ["derive"] }
serde = { version = "=1.0.229", features = ["derive"] }
serde_json = "=1.0.154"
thiserror = "=2.0.21"
block2 = "=0.6.2"
dispatch2 = "=0.3.1"

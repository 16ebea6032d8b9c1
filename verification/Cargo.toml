[package]
name = "rcore"
version = "0.1.0"
edition = "2021"
publish = false

[dependencies]
xmas-elf = "0.7"
clap = "2.33"
bitflags = "1"
buddy_system_allocator = "0.6"
lazy_static = "1"
log = "0.4"
riscv = "0.8"
spin = "0.7"
virtio-drivers = "0.1"

[dev-dependencies]
rand = "0.8"

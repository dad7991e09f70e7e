[package]
name = "fas-rs"
version = "0.1.0"
edition = "2021"
publish = false

[dependencies]
anyhow = "=1.0.104"
aya = "=0.13.1"
aya-ebpf = "=0.1.1"
ctor = "=0.8.0"
frame-analyzer = "=0.3.4"
libc = "=0.2.191"
likely_stable = "=0.1.3"
log = "=0.4.35"
mio = { version = "=1.2.4", features = ["os-poll", "os-ext"] }
parking_lot = "=0.12.5"
rustix = { version = "=1.1.6", features = ["process"] }

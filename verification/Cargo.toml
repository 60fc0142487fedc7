[package]
name = "memtrack"
version = "0.1.0"
edition = "2021"
publish = false

[dependencies]
anyhow = "1"
libbpf-rs = "*"
libc = "0.2"
parking_lot = "0.12"
perf-event-open-sys = "*"
serde = { version = "1", features = ["derive"] }
serde_json = "1"
typed-builder = "*"

[package]
name = "ring_cluster"
version = "0.1.0"
edition = "2021"
publish = false

[dependencies]
rand = "0.8"
queues = "1"
nix = "0.26"
os_pipe = "1"
csv = "1"
serde = { version = "1", features = ["derive"] }
timer = "0.2"
chrono = "0.4"
sysinfo = "0.29"

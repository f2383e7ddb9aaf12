[package]
name = "matching_engine"
version = "0.1.0"
edition = "2021"
publish = false

[dependencies]
smallvec = "1"
crossbeam = "0.8"
parking_lot = "0.12"
num_cpus = "1"
core_affinity = "*"
bincode = "2"
serde = { version = "1", features = ["derive"] }

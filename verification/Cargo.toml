[package]
name = "r1cs_circuit"
version = "0.1.0"
edition = "2021"
publish = false

[dependencies]
num-bigint = { version = "=0.5.1", features = ["serde"] }
serde = { version = "=1.0.229", features = ["derive"] }
bincode = "=1.3.3"

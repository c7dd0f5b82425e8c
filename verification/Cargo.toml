[package]
name = "ninja_rs"
version = "0.1.0"
edition = "2021"
publish = false

[dependencies]
petgraph = "0.6"
anyhow = "1"
async-trait = "0.1"
console = "0.15"
crossbeam = "0.8"
futures = "0.3"
num_cpus = "1"
pico-args = "0.5"
scopeguard = "1"
thiserror = "1"
tokio = { version = "1", features = ["rt", "process", "sync"] }

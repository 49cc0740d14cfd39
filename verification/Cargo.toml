[package]
name = "qmp_engine"
version = "0.1.0"
edition = "2021"
publish = false

[dependencies]
anyhow = "1"
futures = "0.3"
libc = "0.2"
log = "0.4"
nix = { version = "0.29", features = ["sched"] }
simplelog = "0.12"
tokio = { version = "1", features = ["full"] }

[package]
name = "reflex_tun"
version = "0.1.0"
edition = "2021"
publish = false

[dependencies]
anyhow = "1"
async-trait = "0.1"
bytes = "=1.12.1"
futures-util = "0.3"
libc = "=0.2.191"
notify = "6"
once_cell = "1"
portable-atomic = "1"
serde = { version = "1", features = ["derive"] }
serde_json = "1"
socket2 = { version = "0.5", features = ["all"] }
tokio = { version = "1", features = ["full"] }
tracing = "0.1"
tun = { version = "0.8", features = ["async"] }

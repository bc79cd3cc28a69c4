[package]
name = "geofw"
version = "0.1.0"
edition = "2021"
publish = false

[dependencies]
anyhow = "1"
aya = "0.13"
aya-ebpf = "0.1"
aya-log = "0.2"
aya-log-ebpf = "0.1"
chrono = { version = "0.4", default-features = false, features = ["std"] }
env_logger = "0.11"
flate2 = "1"
fxhash = "0.2"
libc = "0.2"
log = "0.4"
network-types = "*"
serde = { version = "1", features = ["derive"] }
serde_derive = "1"
serde_json = "1"
tar = "0.4"
tokio = { version = "1", features = ["macros", "rt", "rt-multi-thread", "signal", "time"] }
ureq = { version = "2", default-features = false }

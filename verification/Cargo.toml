[package]
name = "patchsync"
version = "0.1.0"
edition = "2021"
publish = false

[dependencies]
blake3 = { version = "*", features = ["pure"] }
color-eyre = { version = "*", default-features = false }
eyre = "*"
fastcdc = "*"
flume = { version = "*", default-features = false, features = ["async"] }
ignore = "*"
indicatif = { version = "*", default-features = false }
iroh = "*"
iroh-tickets = "*"
memmap2 = "*"
postcard = { version = "*", features = ["use-std"] }
serde = { version = "*", features = ["derive"] }
tempfile = "*"
thiserror = "*"
tokio = { version = "*", features = ["fs", "io-util", "macros", "net", "rt-multi-thread", "signal", "sync", "time"] }
tracing = "*"

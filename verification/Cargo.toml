[package]
name = "filecast"
version = "0.1.0"
edition = "2021"
publish = false

[dependencies]
anyhow = "=1.0.104"
arrayvec = "=0.7.8"
blake3 = { version = "=1.8.7", features = ["mmap", "rayon"] }
bytes = "=1.12.1"
clap = { version = "=4.6.7", features = ["derive"] }
flume = "=0.12.0"
quinn-udp = "=0.5.16"
rand = "=0.10.3"
rangemap = "=1.8.0"
rayon = "=1.12.0"
savefile = "=0.20.6"
socket2 = { version = "=0.6.5", features = ["all"] }
tokio = { version = "=1.54.1", features = ["io-util", "macros", "net", "rt-multi-thread", "time"] }
tracing = "=0.1.44"
tracing-subscriber = { version = "=0.3.23", features = ["env-filter", "json"] }

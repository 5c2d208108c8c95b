[package]
name = "foldback"
version = "0.1.0"
edition = "2021"
publish = false

[dependencies]
xxhash-rust = { version = "=0.8.19", features = ["xxh3"] }
zstd = "=0.13.4"
clap = { version = "=4.6.7", features = ["derive"] }
serde = { version = "=1.0.229", features = ["derive"] }
serde_json = "=1.0.154"
tungstenite = "=0.30.0"
thiserror = "=2.0.21"
walkdir = "=2.5.0"
syn = { version = "=2.0.119", features = ["full"] }
quote = "=1.0.47"
proc-macro2 = "=1.0.107"
bevy_reflect = "=0.20.1"
egui = "=0.37.0"

[package]
name = "decoded-shredstream"
version = "0.1.0"
edition = "2021"
publish = false

[dependencies]
bs58 = "0.5"
bytes = "1"
crossbeam-queue = "0.3"
futures-core = "0.3"
socket2 = { version = "0.5", features = ["all"] }
thiserror = "1"
tokio = { version = "1", default-features = false, features = ["sync", "rt", "macros"] }

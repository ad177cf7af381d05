[package]
name = "rocksq"
version = "0.1.0"
edition = "2021"
publish = false

[dependencies]
anyhow = "1"
chrono = "0.4"
crossbeam-channel = "0.5"
parking_lot = "0.12"
rocksdb = "*"

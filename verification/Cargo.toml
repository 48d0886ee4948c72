[package]
name = "train_ute"
version = "0.1.0"
edition = "2021"
publish = false

[dependencies]
gtfs-structures = { version = "*", default-features = false }
chrono = "*"
thiserror = "*"

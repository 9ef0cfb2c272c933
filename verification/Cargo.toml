[package]
name = "edos_fs"
version = "0.1.0"
edition = "2021"
publish = false

[dependencies]
crossbeam-queue = "0.3"
lru = "0.12"
spin = "0.9"
thiserror = "2"

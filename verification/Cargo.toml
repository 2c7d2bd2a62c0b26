[package]
name = "stackpack"
version = "0.1.0"
edition = "2021"
publish = false

[dependencies]
anyhow = "*"
bsc_m03_sys = "*"
clap = { version = "*", features = ["derive"] }
libloading = "*"
parking_lot = "*"
walkdir = "*"

[dev-dependencies]
arcode = "*"

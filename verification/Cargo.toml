[package]
name = "syntect"
version = "0.1.0"
edition = "2021"
publish = false

[dependencies]
onig = { version = "=6.5.3", default-features = false }
walkdir = "=2.5.0"
flate2 = "=1.1.10"
bincode = "=1.3.3"
serde = { version = "=1.0.229", features = ["derive"] }

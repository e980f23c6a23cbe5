[package]
name = "myme"
version = "0.1.0"
edition = "2021"
publish = false

[dependencies]
crossterm = "0.28"
encoding_rs = "0.8"
serde = { version = "1", features = ["derive"] }
serde_json = "1"
thiserror = "1"

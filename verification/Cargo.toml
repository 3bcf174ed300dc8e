[package]
name = "irohscii"
version = "0.1.0"
edition = "2021"
publish = false

[dependencies]
data-encoding = "=2.11.1"
serde = { version = "1", features = ["derive"] }
rmp-serde = "1"

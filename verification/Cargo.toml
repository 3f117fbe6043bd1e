[package]
name = "bytestr"
version = "0.2.0"
edition = "2021"
publish = false

[dependencies]
bytes = "1"
serde = "1"

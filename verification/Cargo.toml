[package]
name = "lean_string"
version = "0.7.0"
edition = "2021"
publish = false

[dependencies]
serde_core = "1"
arbitrary = "1"

[package]
name = "wgsl_pp"
version = "0.1.0"
edition = "2021"
publish = false

[dependencies]
naga = { version = "*", features = ["wgsl-in"] }
serde = { version = "*", features = ["derive"] }

[package]
name = "nadi_cairo"
version = "0.1.0"
edition = "2021"
publish = false

[dependencies]
nadi_core = { version = "=0.8.1", features = ["graphics"] }
cairo-rs = { version = "=0.22.9", features = ["svg"] }

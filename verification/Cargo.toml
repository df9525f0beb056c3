[package]
name = "aurio"
version = "0.1.0"
edition = "2021"
publish = false

[dependencies]
ringbuf = "0.4"
arc-swap = "1"
crossbeam = "0.8"
cpal = "0.15"
mlua = { version = "0.10", features = ["lua54", "vendored"] }
ron = "0.8"
serde = { version = "1", features = ["derive"] }

[package]
name = "message_dedup"
version = "0.1.0"
edition = "2021"
publish = false

[dependencies]
bytes = "=1.12.1"
rand = { version = "*", default-features = false }
rand_xoshiro = { version = "*" }
twox-hash = "=2.1.5"

[package]
name = "serde_nuan5json"
version = "0.1.0"
edition = "2021"
publish = false

[dependencies]
serde = { version = "=1.0.229", features = ["derive"] }
memchr = "=2.8.3"
itoa = "=1.0.18"
ryu = "=1.0.23"
delegate = "=0.13.5"
syn = { version = "=2.0.119", features = ["full"] }

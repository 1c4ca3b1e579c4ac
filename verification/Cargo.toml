[package]
name = "libdds"
version = "0.1.0"
edition = "2021"
publish = false

[dependencies]
log = "*"
mio = { version = "*", features = ["os-poll", "net"] }

[package]
name = "ramjet-node"
version = "0.1.0"
edition = "2021"
publish = false

[dependencies]
libc = "=0.2.191"
napi = { version = "=3.16.1", features = ["napi6"] }
napi-derive = "=3.7.0"
ramjet = "=0.1.5"
ramjet-ws = "=0.1.5"

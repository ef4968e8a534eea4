[package]
name = "tunnel_reactor"
version = "0.1.0"
edition = "2021"
publish = false

[dependencies]
slab = "=0.4.12"
rust-crypto = "=0.2.36"
mio = "=0.6.23"

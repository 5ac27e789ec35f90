[package]
name = "zappy"
version = "0.1.0"
edition = "2021"
publish = false

[dependencies]
rand = "0.8"
libc = "0.2"
colored = "2"
bincode = "1"

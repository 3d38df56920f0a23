[package]
name = "unsync"
version = "0.1.2"
edition = "2021"
publish = false

[dependencies]
slab = "0.4"

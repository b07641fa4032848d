[package]
name = "transient_hashmap"
version = "0.1.0"
edition = "2021"
publish = false

[dependencies]
time = "*"

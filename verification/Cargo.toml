[package]
name = "self_avoiding_walk"
version = "0.1.0"
edition = "2021"
publish = false

[dependencies]
rand = "0.8"
yaml-rust = "0.4"

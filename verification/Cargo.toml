[package]
name = "toy-ac"
version = "0.1.0"
edition = "2021"
publish = false

[dependencies]
bitbit = "*"
workspace_root = "*"

[package]
name = "rust_cfs"
version = "0.1.0"
edition = "2021"
publish = false

[dependencies]
rbtree = "*"
raw_pointer = "*"

[package]
name = "fastforth"
version = "0.1.0"
edition = "2021"
publish = false

[dependencies]
petgraph = "*"
rustc-hash = "*"
smallvec = "1"
thiserror = "*"

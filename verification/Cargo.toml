[package]
name = "graphwalk"
version = "0.1.0"
edition = "2021"
publish = false

[dependencies]
petgraph = "*"
proptest = "*"
thiserror = "*"

[package]
name = "biner"
version = "0.1.0"
edition = "2021"

[dependencies]
petgraph = "0.8"
thiserror = "2"
linkme = "0.3"

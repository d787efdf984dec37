[package]
name = "lifeline"
version = "0.1.0"
edition = "2021"
publish = false

[dependencies]
petgraph = "=0.6.5"
llvm-ir = { version = "=0.11.3", features = ["llvm-14", "prefer-dynamic"] }
either = "=1.19.0"
ena = "=0.14.4"

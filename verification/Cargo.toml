[package]
name = "medal"
version = "0.1.0"
edition = "2021"
publish = false

[dependencies]
rustc-hash = "2"
indexmap = "2"
petgraph = "0.8"
itoa = "1"
ryu = "1"
array_tool = "1"

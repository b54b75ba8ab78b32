[package]
name = "chunk_graph"
version = "0.1.0"
edition = "2021"
publish = false

[dependencies]
petgraph = "0.6"
serde_json = "1"
regex = "1"

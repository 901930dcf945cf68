[package]
name = "graph_layout"
version = "0.1.0"
edition = "2021"

[dependencies]
ndarray = "*"
ndarray-stats = "*"

[dev-dependencies]
rand = "0.8"

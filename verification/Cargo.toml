[package]
name = "subgraph_coordinator"
version = "0.1.0"
edition = "2021"
publish = false

[dependencies]
failure = "0.1"
futures = "0.1"
tokio = "0.1"
web3 = { version = "*", default-features = false }

[package]
name = "subgraph_mining_trading"
version = "0.1.0"
edition = "2021"
publish = false

[dependencies]
petgraph = "0.6"
chrono = "0.4"
nalgebra = "0.32"
serde = { version = "1.0", features = ["derive"] }
serde_json = "1.0"
thiserror = "1.0"

[package]
name = "dag_consensus"
version = "0.1.0"
edition = "2021"
publish = false

[dependencies]
tokio = { version = "=1.54.1", features = ["sync", "rt", "macros", "time"] }
futures = "=0.3.34"
bytes = "=1.12.1"
bincode = "=1.3.3"
log = "=0.4.35"
serde = { version = "=1.0.229", features = ["derive"] }

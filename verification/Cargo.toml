[package]
name = "podgraph"
version = "0.1.0"
edition = "2021"
publish = false

[dependencies]
petgraph = "=0.8.3"
fixedbitset = "=0.5.7"
clap = { version = "=4.6.7", features = ["derive"] }
futures = "=0.3.34"
scryfall = "=0.25.0"
serde = { version = "=1.0.229", features = ["derive"] }
serde_json = "=1.0.154"
tokio = { version = "=1.54.1", features = ["fs", "io-std", "io-util", "macros", "rt-multi-thread", "sync"] }
tokio-stream = { version = "=0.1.19", features = ["io-util"] }

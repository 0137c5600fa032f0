[package]
name = "workout_rs"
version = "0.1.0"
edition = "2021"
publish = false

[dependencies]
anyhow = "1"
clap = { version = "4", features = ["derive"] }
hashbrown = "0.15"
itertools = "*"
petgraph = "*"
swift-bridge = "*"
thiserror = "*"

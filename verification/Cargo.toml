[package]
name = "disaster_mesh"
version = "0.1.0"
edition = "2021"
publish = false

[dependencies]
anyhow = "=1.0.104"
async-trait = "=0.1.92"
futures = "=0.3.34"
rand = "=0.8.8"
sled = "=0.34.7"
tokio = { version = "=1.54.1", features = ["sync"] }
uuid = { version = "=1.29.0", features = ["v4", "serde"] }

[dev-dependencies]
bincode = "=1.3.3"
serde = "=1.0.229"

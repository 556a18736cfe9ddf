[package]
name = "aether"
version = "0.1.0"
edition = "2021"
publish = false

[dependencies]
axum = "0.7"
bytemuck = { version = "1", features = ["derive"] }
clap = { version = "4", features = ["derive", "env"] }
futures = "0.3"
half = "2"
ndarray = "0.15"
petgraph = { version = "0.6", default-features = false }
pollster = "0.3"
serde = { version = "1", features = ["derive"] }
serde_json = "1"
sha2 = "0.10"
tokio = { version = "1", features = ["rt-multi-thread", "macros", "net", "signal", "sync", "time"] }
tracing = "0.1"
tracing-subscriber = { version = "0.3", features = ["env-filter"] }
wgpu = { version = "0.20", default-features = false, features = ["wgsl"] }

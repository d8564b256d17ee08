[package]
name = "curve_stats"
version = "0.1.0"
edition = "2021"
publish = false

[dependencies]
base64 = "0.21"
csv = "1"
futures = "0.3"
serde = { version = "1", features = ["derive"] }
serde_json = "1"
thiserror = "1"

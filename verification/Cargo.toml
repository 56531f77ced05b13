[package]
name = "dh_core"
version = "0.1.0"
edition = "2021"
publish = false

[dependencies]
base64 = "0.22"
serde = { version = "1", features = ["derive"] }
serde_json = "1"
uuid = { version = "1", features = ["v4"] }
parking_lot = "0.12"
thiserror = "1"
rusqlite = { version = "*", features = ["bundled"] }
duckdb = "*"

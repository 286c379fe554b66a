[package]
name = "beckon"
version = "0.1.0"
edition = "2021"
publish = false

[dependencies]
serde = { version = "1", features = ["derive"] }
serde_json = "1"
toml = "0.8"
gtk4 = "0.9"
async-channel = "2"
rusqlite = "0.32"
tokio = { version = "1", features = ["rt-multi-thread", "sync", "time", "process", "macros"] }
rmcp = { version = "*", features = ["client", "transport-child-process", "transport-streamable-http-client-reqwest"] }
wayland-client = "0.31"
wayland-scanner = "0.31"

[package]
name = "gshare3"
version = "0.1.0"
edition = "2021"
publish = false

[dependencies]
askama_axum = "0.4"
axum = { version = "0.7", features = ["multipart"] }
chrono = "0.4"
clap = { version = "4", features = ["derive"] }
local-ip-address = "0.6"
serde = { version = "1", features = ["derive"] }
serde_json = "1"
tokio = { version = "1", features = ["rt-multi-thread", "macros", "net"] }
tower = { version = "0.4", features = ["util"] }
tower-http = { version = "0.5", features = ["fs", "compression-gzip"] }

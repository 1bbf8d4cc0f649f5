[package]
name = "jsp_lsp"
version = "0.1.0"
edition = "2021"
publish = false

[dependencies]
anyhow = "1"
chrono = "0.4"
dirs = "5"
fern = "0.7"
log = "0.4"
serde_json = "1"
tokio = { version = "1", features = ["full"] }
tower-lsp = "0.20"

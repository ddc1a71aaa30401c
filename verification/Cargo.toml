[package]
name = "brk_sopd"
version = "0.1.0"
edition = "2021"
publish = false

[dependencies]
pco = "=1.0.4"
rustc-hash = "=2.1.3"
serde = { version = "=1.0.229", features = ["derive"] }
serde_json = "=1.0.154"
schemars = "=0.9.0"
axum = "=0.8.9"
aide = { version = "=0.15.1", features = ["axum", "axum-json", "axum-query"] }

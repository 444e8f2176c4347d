[package]
name = "rust_mule"
version = "0.1.0"
edition = "2021"
publish = false

[dependencies]
getrandom = "0.2"
tokio = { version = "1", features = ["full"] }
serde = { version = "1", features = ["derive"] }
anyhow = "1"
tracing = "0.1"
fs2 = "0.4"

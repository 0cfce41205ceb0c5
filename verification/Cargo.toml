[package]
name = "dictcore"
version = "0.1.0"
edition = "2021"
publish = false

[dependencies]
axum = "*"
csv = "*"
serde = { version = "*", features = ["derive"] }
serde_json = "*"
tokio = { version = "*", features = ["macros", "rt-multi-thread", "net"] }

[package]
name = "xn_moshi"
version = "0.2.4"
edition = "2021"
publish = false

[dependencies]
serde = { version = "1", features = ["derive"] }
serde_json = "1"
tracing = "0.1"
xn = "*"

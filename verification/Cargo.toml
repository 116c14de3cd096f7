[package]
name = "searchidx"
version = "0.1.0"
edition = "2021"
publish = false

[dependencies]
flate2 = "*"
serde_json = "*"
serde = { version = "*", features = ["derive"] }
memmap = "*"
tokio = { version = "*", features = ["full"] }
async-trait = "*"
futures-core = "*"
tokio-stream = "*"

[package]
name = "liteparse"
version = "0.1.0"
edition = "2021"
publish = false

[dependencies]
burn = { version = "0.16", default-features = false, features = ["std"] }
burn-ndarray = { version = "0.16", default-features = false, features = ["std"] }
image = { version = "0.25", default-features = false, features = ["png"] }
serde = { version = "1", features = ["derive"] }
serde_json = "1"
thiserror = "2"
tokio = { version = "1", default-features = false, features = ["sync", "rt", "macros"] }
web-time = "1"

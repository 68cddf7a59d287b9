[package]
name = "p2psync"
version = "1.0.0"
edition = "2021"
publish = false

[dependencies]
axum = "0.7"
clap = { version = "4", features = ["derive"] }
md5 = "0.7"
rayon = "1"
reqwest = { version = "0.12", default-features = false, features = ["json", "http2"] }
serde = { version = "1", features = ["derive"] }
serde-binary = "*"
serde_json = "1"
tokio = { version = "1", features = ["full"] }
tokio-util = { version = "0.7", features = ["io"] }
tqdm = "*"

[dev-dependencies]
tempfile = "3"

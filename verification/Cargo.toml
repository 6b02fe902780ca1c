[package]
name = "xdiff"
version = "0.1.0"
edition = "2021"
publish = false

[dependencies]
similar = "*"
url = "*"
serde = { version = "*", features = ["derive"] }
serde_json = "*"
serde_yaml = "*"
clap = { version = "*", features = ["derive"] }
tokio = { version = "*", features = ["rt-multi-thread", "macros"] }
reqwest = { version = "*", default-features = false, features = ["json"] }
anyhow = "*"

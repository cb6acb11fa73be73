[package]
name = "rusql"
version = "0.1.0"
edition = "2021"
publish = false

[dependencies]
sha1 = "0.10"
sha2 = "0.10"
unicode-normalization = "0.1"
rsa = "0.9"
rand = "0.8"
tokio = { version = "1", features = ["io-util", "net", "rt", "macros"] }
serde = { version = "1", features = ["derive"] }
serde_json = "1"
thiserror = "1"
clap = { version = "4", features = ["derive", "env"] }

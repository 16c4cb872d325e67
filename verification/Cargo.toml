[package]
name = "rrr"
version = "0.1.0"
edition = "2021"
publish = false

[dependencies]
clap = "4"
csv = "1"
mysql_async = "*"
num = "0.4"
serde = { version = "1", features = ["derive"] }
serde_json = "1"
tokio = { version = "1", features = ["rt-multi-thread"] }
zstd = "*"

[package]
name = "shrestidb"
version = "0.1.0"
edition = "2021"

[dependencies]
sqlparser = "*"
serde = { version = "1", features = ["derive"] }
bincode = "1"
thiserror = "*"
parking_lot = "*"
tracing = "*"
tracing-subscriber = "*"
anyhow = "1"

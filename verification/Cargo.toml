[package]
name = "kvs"
version = "0.1.0"
edition = "2021"
publish = false

[dependencies]
bson = { version = "=3.1.0", features = ["serde"] }
clap = { version = "=4.6.7", features = ["derive"] }
fake = { version = "=5.1.0", features = ["derive"] }
ron = "=0.12.2"
serde = { version = "=1.0.229", features = ["derive"] }
serde_json = "=1.0.151"
thiserror = "=2.0.21"

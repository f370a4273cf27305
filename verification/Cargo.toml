[package]
name = "ledger"
version = "0.1.0"
edition = "2021"
publish = false

[dependencies]
sha2 = "0.10"
chrono = "0.4"
serde = { version = "1", features = ["derive"] }
serde_json = "1"
sled = "0.34"
actix-web = "4"
actix-cors = "0.7"

[package]
name = "mongor"
version = "0.1.0"
edition = "2021"
publish = false

[dependencies]
actix-web = "4"
dotenv = "0.15"
futures = "0.3"
futures-util = "0.3"
mongodb = "3"
serde_json = "1"
tokio = { version = "1", features = ["time"] }

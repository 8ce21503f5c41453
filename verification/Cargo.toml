[package]
name = "evse_occupancy"
version = "0.1.0"
edition = "2021"
publish = false

[dependencies]
serde = { version = "1", features = ["derive"] }
serde_json = "1"
tokio = { version = "1", features = ["macros", "rt-multi-thread", "time"] }
reqwest = { version = "0.12", default-features = false, features = ["json", "rustls-tls"] }
elasticsearch = { version = "=8.19.0-alpha.1", default-features = false, features = ["rustls-tls"] }
uuid = { version = "1", features = ["v4"] }
dotenv = "0.15"

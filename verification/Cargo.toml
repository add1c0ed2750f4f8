[package]
name = "apple_specs"
version = "0.1.0"
edition = "2021"
publish = false

[dependencies]
scraper = "*"
url = "2"
regex = "1"
serde = { version = "1", features = ["derive"] }
serde_json = "1"
sha2 = "0.10"
uuid = { version = "1", features = ["v4"] }
chrono = "0.4"
actix-web = { version = "4", default-features = false, features = ["macros"] }
tokio = { version = "1", features = ["rt", "macros", "time", "sync"] }
tokio-util = "0.7"
reqwest = { version = "0.12", default-features = false, features = ["json", "rustls-tls"] }
rusqlite = { version = "*", features = ["bundled"] }

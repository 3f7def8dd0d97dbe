[package]
name = "chatbook"
version = "0.1.0"
edition = "2021"
publish = false

[dependencies]
regex = "=1.13.1"
chrono = "*"
imessage-database = "=4.3.0"
rusqlite = { version = "=0.40.2", features = ["bundled", "array"] }
serde = { version = "=1.0.228", features = ["derive"] }
serde_json = "=1.0.145"
clap = { version = "=4.6.7", features = ["derive"] }
dirs = "=7.0.0"
reqwest = { version = "=0.13.5", default-features = false, features = ["blocking"] }
scraper = "=0.27.0"

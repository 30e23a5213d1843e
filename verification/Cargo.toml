[package]
name = "heavy_metal_notifier"
version = "0.1.0"
edition = "2021"
publish = false

[dependencies]
scraper = "*"
serde = { version = "*", features = ["derive"] }
serde_json = "*"
time = { version = "*", features = ["local-offset"] }
reqwest = { version = "*", default-features = false, features = ["blocking", "json"] }

[package]
name = "product_calendar"
version = "0.1.0"
edition = "2021"
publish = false

[dependencies]
chrono = "*"
reqwest = { version = "*", default-features = false, features = ["blocking"] }
scraper = "*"
serde = { version = "*", features = ["derive"] }

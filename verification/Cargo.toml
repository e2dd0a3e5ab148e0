[package]
name = "home127"
version = "0.1.0"
edition = "2021"
publish = false

[dependencies]
scraper = "*"
serde = { version = "1", features = ["derive"] }
serde_json = "1"
reqwest = { version = "0.12", default-features = false }
futures = "0.3"
tokio = { version = "1", features = ["rt-multi-thread", "macros"] }
libc = "0.2"

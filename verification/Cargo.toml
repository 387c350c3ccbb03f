[package]
name = "daily_feed"
version = "0.1.0"
edition = "2021"
publish = false

[dependencies]
scraper = "*"
ego-tree = "*"
serde_json = "*"
chrono = "*"
serde = { version = "*", features = ["derive"] }
rss = "*"
reqwest = { version = "*", default-features = false, features = ["json"] }
tokio = { version = "*", features = ["rt-multi-thread", "macros", "time"] }
futures = "*"
async-trait = "*"
clap = { version = "*", features = ["derive"] }
epub-builder = "*"

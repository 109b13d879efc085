[package]
name = "feed_archive"
version = "0.1.0"
edition = "2021"
publish = false

[dependencies]
rusqlite = { version = "=0.40.2", features = ["bundled"] }
slack_api = { version = "=0.23.1", features = ["sync", "reqwest_blocking"] }

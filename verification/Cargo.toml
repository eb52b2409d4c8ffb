[package]
name = "playlist_sync"
version = "0.1.0"
edition = "2021"
publish = false

[dependencies]
rand = "*"
rspotify = { version = "*", features = ["cli"] }
chrono = "*"
futures = "*"
futures-util = "*"
serde = { version = "*", features = ["derive"] }
serde_json = "*"

[package]
name = "mp4handler"
version = "0.1.0"
edition = "2021"
publish = false

[dependencies]
image = { version = "0.25", default-features = false, features = ["jpeg", "png"] }
rand = "0.8"
rayon = "1"
serde = { version = "1", features = ["derive"] }
serde_json = "1"
walkdir = "2"
chrono = "0.4"
tokio = { version = "1", features = ["fs", "io-util", "sync", "rt", "macros", "time"] }
reqwest = { version = "0.12", default-features = false, features = ["stream", "rustls-tls"] }
futures-util = "0.3"

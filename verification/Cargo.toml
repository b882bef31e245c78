[package]
name = "graphodoc"
version = "0.1.0"
edition = "2021"
publish = false

[dependencies]
regex-syntax = "=0.8.11"
pulldown-cmark = { version = "=0.9.6", default-features = false }
xxhash-rust = { version = "=0.8.19", features = ["xxh3"] }
serde = { version = "=1.0.229", features = ["derive"] }
serde_json = "=1.0.154"
anyhow = "=1.0.104"
clap = { version = "=4.6.7", features = ["derive"] }
tokio = { version = "=1.54.1", features = ["rt-multi-thread", "macros", "net"] }
axum = "=0.7.9"
tower-http = { version = "=0.5.2", features = ["fs"] }
walkdir = "=2.5.0"
stop-words = "*"
rust-stemmers = "*"
futures = "=0.3.34"
egui = "=0.27.2"
ehttp = "=0.5.0"

[package]
name = "kairos"
version = "0.1.0"
edition = "2021"
publish = false

[dependencies]
anyhow = "1"
chrono = "0.4"
clap = { version = "4", features = ["derive"] }
diffy = "0.4"
ignore = "0.4"
notify = "6"
rusqlite = { version = "0.32", features = ["bundled"] }
sha2 = "0.10"
similar = "2"
walkdir = "2"

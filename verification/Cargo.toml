[package]
name = "captains_log"
version = "0.1.0"
edition = "2021"
publish = false

[dependencies]
anyhow = "=1.0.104"
chrono = { version = "=0.4.45", features = ["serde"] }
clap = { version = "=4.6.7", features = ["derive"] }
colored = "=3.1.1"
directories = "=6.0.0"
pulldown-cmark = "=0.13.4"
rusqlite = { version = "=0.40.2", features = ["bundled", "chrono"] }
serde = { version = "=1.0.229", features = ["derive"] }
serde_json = "=1.0.151"
serde_yaml = "=0.9.34"
terminal_size = "=0.4.4"

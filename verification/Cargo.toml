[package]
name = "backup_scan_tool"
version = "0.1.0"
edition = "2021"
publish = false

[dependencies]
quick-xml = "0.36"
owo-colors = "4"
clap = { version = "4", features = ["derive"] }
anyhow = "1"
globset = "0.4"
walkdir = "2"
rayon = "1"
zip = { version = "2", default-features = false, features = ["deflate"] }
flate2 = "1"
tar = "0.4"
serde = { version = "1", features = ["derive"] }
serde_json = "1"

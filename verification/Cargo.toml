[package]
name = "bear_formatter"
version = "0.1.0"
edition = "2021"
publish = false

[dependencies]
pulldown-cmark = { version = "0.12", default-features = false }
clap = { version = "4", features = ["derive"] }
anyhow = "1"
thiserror = "2"
dirs = "5"
serde = { version = "1", features = ["derive"] }
toml = "0.8"
rusqlite = { version = "0.32", features = ["bundled"] }

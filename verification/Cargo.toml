[package]
name = "table_filter"
version = "0.1.0"
edition = "2021"
publish = false

[dependencies]
chrono = "0.4"
serde_json = "1"
clap = { version = "4", features = ["derive"] }
dirs = "5"

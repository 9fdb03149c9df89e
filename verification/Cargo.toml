[package]
name = "ts_filter"
version = "0.1.0"
edition = "2021"
publish = false

[dependencies]
chrono = "0.4"
clap = { version = "3", features = ["derive"] }
colored = "2"

[dev-dependencies]
regex = "1"

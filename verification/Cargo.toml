[package]
name = "almanac"
version = "0.1.0"
edition = "2021"
publish = false

[dependencies]
chrono = "*"
chrono-tz = "*"
ical = "*"
colored = "*"
dirs = "*"
toml = "*"
serde = { version = "*", features = ["derive"] }

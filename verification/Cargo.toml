[package]
name = "calio"
version = "0.1.0"
edition = "2021"
publish = false

[dependencies]
chrono = "*"
chrono-tz = "*"
ical = "*"
colored = "*"
atty = "*"
ctrlc = "*"
reqwest = { version = "*", default-features = false, features = ["blocking"] }

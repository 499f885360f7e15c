[package]
name = "crawler"
version = "0.1.0"
edition = "2021"
publish = false

[dependencies]
rayon = "1"
reqwest = { version = "0.12", features = ["blocking"] }
scraper = "0.20"
url = "2"

[dev-dependencies]
regex = "1"

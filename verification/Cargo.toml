[package]
name = "little_crawl"
version = "0.1.0"
edition = "2021"
publish = false

[dependencies]
crossbeam = "0.8"
reqwest = { version = "0.12", features = ["blocking"] }
scraper = "*"
url = "2"

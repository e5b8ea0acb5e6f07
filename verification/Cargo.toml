[package]
name = "mkt_blanket"
version = "0.1.0"
edition = "2021"
publish = false

[dependencies]
regex = "1"
img_hash = "3"
chrono = { version = "0.4", features = ["serde"] }
serde = { version = "1", features = ["derive"] }
serde_json = "1"
image = "0.23"
imageproc = "0.22"
palette = "0.6"
itertools = "0.10"
scraper = "0.12"
reqwest = { version = "0.11", default-features = false, features = ["blocking", "rustls-tls", "cookies"] }
csv = "1"
unidecode = "0.3"

[package]
name = "album_metadata"
version = "0.1.0"
edition = "2021"
publish = false

[dependencies]
scraper = "*"
ego-tree = "*"
image = "0.24"
id3 = "1"
reqwest = { version = "0.11", features = ["blocking"] }
wikipedia = "*"

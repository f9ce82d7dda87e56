[package]
name = "comic_pages"
version = "0.1.0"
edition = "2021"
publish = false

[dependencies]
pdf = "0.7"
zip = { version = "0.5", default-features = false, features = ["deflate"] }

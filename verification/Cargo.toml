[package]
name = "spam_filter"
version = "0.1.0"
edition = "2021"
publish = false

[dependencies]
rust-stemmers = "1"
unicode-segmentation = "1"
serde = { version = "1", features = ["derive"] }
serde_json = "1"
actix-web = { version = "4", default-features = false, features = ["macros"] }

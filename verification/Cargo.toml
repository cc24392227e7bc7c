[package]
name = "summarizer"
version = "0.1.0"
edition = "2021"
publish = false

[dependencies]
lingua = { version = "1", default-features = false, features = ["english", "chinese"] }
unicode-segmentation = "1"
clap = { version = "4", features = ["derive"] }
arboard = "3"

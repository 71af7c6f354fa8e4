[package]
name = "ssg"
version = "0.1.0"
edition = "2021"
publish = false

[dependencies]
anyhow = "1"
chrono = "0.4"
clap = { version = "4", features = ["derive"] }
lindera = "*"
pulldown-cmark = { version = "0.12", default-features = false, features = ["html"] }
rust-stemmers = "1"
serde = { version = "1", features = ["derive"] }
serde_json = "1"
slug = "0.1"
syntect = { version = "5", default-features = false, features = ["default-fancy"] }

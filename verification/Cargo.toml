[package]
name = "poet"
version = "0.1.0"
edition = "2021"
publish = false

[dependencies]
url = "*"
clap = "*"
serde = { version = "*", features = ["derive"] }
reqwest = { version = "*", default-features = false, features = ["blocking", "json"] }

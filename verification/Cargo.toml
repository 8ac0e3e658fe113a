[package]
name = "scrum_poker"
version = "0.1.0"
edition = "2021"
publish = false

[dependencies]
tokio = { version = "*", default-features = false, features = ["sync"] }
serde = { version = "*", features = ["derive"] }
serde_json = "*"
rand = "*"

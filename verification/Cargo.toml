[package]
name = "onode"
version = "0.1.0"
edition = "2021"
publish = false

[dependencies]
regex = "1"
rmp-serde = "1"
serde = { version = "1", features = ["derive"] }

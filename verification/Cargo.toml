[package]
name = "atrium"
version = "0.1.0"
edition = "2021"
publish = false

[dependencies]
anyhow = "1"
clap = { version = "4", features = ["derive"] }
quick-xml = "*"
serde = { version = "1", features = ["derive"] }
serde_json = "1"
ureq = "*"
image = { version = "*", default-features = false, features = ["png", "jpeg"] }

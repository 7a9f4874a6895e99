[package]
name = "dmi"
version = "0.1.0"
edition = "2021"
publish = false

[dependencies]
base64 = "0.22"
image = { version = "0.24", default-features = false, features = ["png"] }
png = "0.17"
serde = { version = "1", features = ["derive"] }
serde_json = "1"

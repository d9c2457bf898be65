[package]
name = "canvas_scan"
version = "0.1.0"
edition = "2021"
publish = false

[dependencies]
base64 = "*"
serde = { version = "*", features = ["derive"] }
serde_json = "*"
reqwest = { version = "*", default-features = false, features = ["blocking", "json"] }
ctrlc = "*"
image = { version = "*", default-features = false, features = ["png"] }

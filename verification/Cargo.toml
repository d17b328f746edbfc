[package]
name = "import_modules"
version = "0.1.0"
edition = "2021"
publish = false

[dependencies]
fancy-regex = "*"
serde = { version = "*", features = ["derive"] }
serde_json = "*"

[package]
name = "terraria_fishing_bot"
version = "0.1.0"
edition = "2021"
publish = false

[dependencies]
regex = "1"
strsim = "0.11"
serde = { version = "1", features = ["derive"] }
serde_json = "1"
image = { version = "0.25", default-features = false, features = ["png"] }
log = "0.4"
strum_macros = "0.27"

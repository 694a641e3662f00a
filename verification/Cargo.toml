[package]
name = "rustpack"
version = "0.1.0"
edition = "2021"
publish = false

[dependencies]
base64 = "*"
chrono = "*"
clap = "*"
colored = "*"
flate2 = "*"
hmac = "*"
indicatif = "*"
notify = "*"
rand = "*"
serde = "*"
serde_json = "*"
sha2 = "*"
tar = "*"
tempfile = "*"
toml = "*"
walkdir = "*"
zip = { version = "*", default-features = false, features = ["deflate"] }

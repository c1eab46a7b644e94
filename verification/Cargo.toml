[package]
name = "ous"
version = "0.7.0"
edition = "2021"
publish = false

[dependencies]
anyhow = "1"
md-5 = "0.10"
regex = "1"
serde = { version = "1", features = ["derive"] }
serde_json = "1"
sha1 = "0.10"
sha2 = "0.10"
toml = "0.8"

[package]
name = "entryconf"
version = "0.3.0"
edition = "2021"
publish = false

[dependencies]
saphyr-parser = "*"
serde = { version = "1", features = ["derive"] }
serde_json = "1"
sha2 = "0.10"
toml = "0.9"

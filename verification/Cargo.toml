[package]
name = "hg"
version = "0.1.0"
edition = "2021"
publish = false

[dependencies]
rand = "0.8"
serde = { version = "1", features = ["derive"] }
toml = "0.5"
thiserror = "1"
eframe = "0.17"

[dev-dependencies]
regex = "1"
itertools = "0.10"

[package]
name = "scrapbox"
version = "0.1.0"
edition = "2021"
publish = false

[dependencies]
faer = "0.22"
libm = "0.2"
rand = "0.8"
rustfft = "6"
serde = { version = "1", features = ["derive"] }
serde_json = "1"
thiserror = "1"
toml = "0.8"
tracing = "0.1"
tracing-subscriber = "0.3"

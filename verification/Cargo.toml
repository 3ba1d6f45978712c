[package]
name = "monobank_api"
version = "0.1.0"
edition = "2021"
publish = false

[dependencies]
iso_currency = "*"
reqwest = { version = "*", default-features = false, features = ["blocking", "json"] }
serde = { version = "*", features = ["derive"] }
serde_json = "*"
thiserror = "*"
dotenv = "*"
log = "*"

[package]
name = "geoplumb"
version = "0.1.0"
edition = "2021"
publish = false

[dependencies]
axum = "0.8"
futures = "0.3"
png = "0.17"
reqwest = { version = "0.12", default-features = false, features = ["blocking"] }
serde = { version = "1", features = ["derive"] }
serde_json = "1"
thiserror = "2"
tokio = { version = "1", features = ["full"] }
toml = "0.8"

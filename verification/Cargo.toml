[package]
name = "acronyms"
version = "0.1.0"
edition = "2021"
publish = false

[dependencies]
anyhow = "1"
axum = "0.6"
dotenv = "0.15"
log = "0.4"
serde = { version = "1", features = ["derive"] }
sqlx = { version = "0.7", default-features = false, features = ["runtime-tokio", "tls-rustls", "mysql"] }
tokio = { version = "1", features = ["full"] }

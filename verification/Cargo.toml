[package]
name = "accounting_system"
version = "0.1.0"
edition = "2021"
publish = false

[dependencies]
anyhow = "=1.0.104"
chrono = "=0.4.45"
dotenvy = "=0.15.7"
rust_decimal = "=1.43.0"
serde = { version = "=1.0.229", features = ["derive"] }
sqlx = { version = "=0.8.6", default-features = false, features = ["runtime-tokio", "mysql", "chrono", "rust_decimal"] }
tokio = { version = "=1.53.2", features = ["rt-multi-thread", "macros"] }

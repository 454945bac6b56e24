[package]
name = "compute_engine"
version = "0.1.0"
edition = "2021"
publish = false

[dependencies]
anyhow = "=1.0.104"
chrono = { version = "=0.4.45", default-features = false, features = ["std", "serde"] }
dotenvy = "=0.15.7"
rust_decimal = "=1.43.0"
serde = { version = "=1.0.229", features = ["derive"] }
serde_json = "=1.0.154"
sqlx = { version = "=0.8.6", default-features = false, features = ["runtime-tokio", "postgres", "chrono", "rust_decimal", "json", "derive"] }
tokio = { version = "=1.54.1", features = ["rt-multi-thread", "macros"] }

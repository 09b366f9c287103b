[package]
name = "pg_machida"
version = "0.1.0"
edition = "2021"
publish = false

[dependencies]
rust_decimal = "=1.43.0"
uuid = { version = "=1.29.0", features = ["v4", "v5"] }

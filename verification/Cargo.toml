[package]
name = "kresolver"
version = "0.1.0"
edition = "2021"
publish = false

[dependencies]
anyhow = "=1.0.104"
csv = "=1.4.0"
lru = { version = "=0.18.5", default-features = false }
rust_decimal = "=1.43.0"

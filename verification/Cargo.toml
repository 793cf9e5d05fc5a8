[package]
name = "amethystate"
version = "0.1.0"
edition = "2021"
publish = false

[dependencies]
xxhash-rust = { version = "=0.8.19", features = ["xxh3"] }
uuid = { version = "=1.29.0", features = ["v4"] }
etcetera = "=0.11.0"
directories = "=6.0.0"
serde = { version = "1", features = ["derive"] }
tracing = "0.1"
thiserror = "2"

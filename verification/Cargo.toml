[package]
name = "order_book"
version = "0.1.0"
edition = "2021"
publish = false

[dependencies]
axum = "=0.8.9"
rusqlite = { version = "=0.40.2", features = ["bundled", "fallible_uint"] }
serde = { version = "=1.0.229", features = ["derive"] }
tokio = { version = "=1.53.2", features = ["macros", "rt-multi-thread", "net"] }
tracing = "=0.1.44"
tracing-subscriber = { version = "=0.3.23", features = ["env-filter", "fmt"] }

[package]
name = "cex_core"
version = "0.1.0"
edition = "2021"
publish = false

[dependencies]
rust_decimal = "1"
blake3 = "1"
serde = { version = "1", features = ["derive"] }
serde_json = "1"
axum = { version = "0.7", features = ["ws"] }
tokio = { version = "1", features = ["full"] }
sqlx = { version = "0.8", default-features = false, features = ["runtime-tokio", "postgres", "rust_decimal", "chrono", "uuid", "macros", "migrate"] }
parking_lot = "0.12"
metrics = "*"
metrics-exporter-prometheus = { version = "*", default-features = false }
tracing = "0.1"
tracing-subscriber = "0.3"
chrono = "0.4"
uuid = { version = "1", features = ["v4"] }
reqwest = { version = "0.12", default-features = false, features = ["json", "rustls-tls"] }
dotenvy = "0.15"
hex = "0.4"
base64 = "0.22"
rand = "0.8"
thiserror = "1"
wasm-bindgen = "0.2"

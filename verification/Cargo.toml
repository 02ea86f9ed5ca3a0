[package]
name = "siput_core"
version = "0.1.0"
edition = "2021"
publish = false

[dependencies]
sha2 = "=0.10.9"
hex = "=0.4.3"
rand = "=0.8.8"
tracing = "=0.1.44"
prometheus = "=0.13.4"
lazy_static = "=1.5.1"
tokio = { version = "=1.54.1", features = ["rt-multi-thread", "macros", "net", "time", "sync"] }
axum = "=0.7.9"
async-trait = "=0.1.92"
serde_json = "=1.0.154"
tracing-subscriber = { version = "=0.3.23", features = ["env-filter", "json", "fmt"] }
chrono = { version = "=0.4.45", default-features = false, features = ["clock"] }
uuid = { version = "1", features = ["v4"] }

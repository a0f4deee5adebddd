[package]
name = "meanapi"
version = "0.1.0"
edition = "2021"
publish = false

[dependencies]
axum = "=0.7.9"
axum-server = { version = "0.7", features = ["tls-rustls-no-provider"] }
chrono = "=0.4.45"
config = { version = "=0.13.4", default-features = false, features = ["toml"] }
csv = "=1.4.0"
json-objects-to-csv = "=0.1.3"
lazy_static = "=1.5.1"
rocket = "=0.5.2"
rustls = { version = "0.23", default-features = false, features = ["ring", "std", "tls12", "logging"] }
serde = { version = "=1.0.229", features = ["derive"] }
serde_json = "=1.0.154"
tera = { version = "=1.20.1", default-features = false }
time = { version = "=0.3.55", features = ["macros", "formatting"] }
tokio = { version = "=1.54.1", features = ["full"] }
tower-http = { version = "=0.5.2", features = ["cors", "trace", "fs"] }
tracing = "=0.1.44"
tracing-subscriber = { version = "=0.3.23", features = ["env-filter", "time", "fmt"] }

[package]
name = "suffix_dict"
version = "0.1.0"
edition = "2021"
publish = false

[dependencies]
levenshtein = "*"
axum = "0.6"
axum-server = { version = "0.5", features = ["tls-rustls"] }
clap = { version = "4", features = ["derive"] }
http = "0.2"
serde = { version = "1", features = ["derive"] }
serde_json = "1"
tokio = { version = "1", features = ["full"] }
tower-http = { version = "0.3", features = ["auth", "sensitive-headers", "trace"] }

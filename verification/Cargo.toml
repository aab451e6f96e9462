[package]
name = "manifest_browser"
version = "0.1.0"
edition = "2021"
publish = false

[dependencies]
regex = "=1.13.1"
zstd = { version = "=0.13.4", default-features = false }
anyhow = "1"
serde = { version = "1", features = ["derive"] }
serde_json = "1"
tokio = { version = "1", features = ["rt", "fs", "time"] }
tracing = { version = "0.1", default-features = false, features = ["std"] }
tracing-subscriber = { version = "0.3", default-features = false, features = ["fmt", "registry", "std"] }
reqwest = { version = "0.12", default-features = false, features = ["rustls-tls"] }
rfd = { version = "0.15", default-features = false, features = ["xdg-portal", "tokio"] }
slint = { version = "=1.18.1", default-features = false, features = ["std", "compat-1-2"] }

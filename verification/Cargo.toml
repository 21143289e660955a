[package]
name = "oxipress"
version = "0.1.0"
edition = "2021"
publish = false

[dependencies]
chrono = { version = "=0.4.45", default-features = false, features = ["alloc", "serde"] }
comrak = { version = "=0.59.0", features = ["shortcodes"] }
minijinja = "=3.0.5"
serde = { version = "=1.0.229", features = ["derive"] }
serde_json = "=1.0.154"
serde_yaml = "=0.9.34"
tokio = { version = "=1.54.1", features = ["macros", "rt-multi-thread"] }
toml = "=1.1.8"
url = "=2.5.8"
vercel_runtime = "=2.4.1"

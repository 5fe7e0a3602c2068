[package]
name = "cdpr"
version = "0.1.0"
edition = "2021"
publish = false

[dependencies]
serenity = "=0.9.4"
tokio = { version = "=0.2.25", features = ["full"] }
redis = "=0.17.0"
serde = { version = "=1.0.229", features = ["derive"] }
serde_json = "=1.0.154"
chrono = "=0.4.45"
config = "=0.10.1"
hound = "=3.5.1"
log = "=0.4.35"
env_logger = "=0.7.1"
kankyo = "=0.3.0"
r2d2 = "=0.8.10"
r2d2_sqlite = "=0.16.0"
rusqlite = { version = "=0.23.1", features = ["bundled"] }

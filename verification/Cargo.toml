[package]
name = "mission_control"
version = "0.1.0"
edition = "2021"
publish = false

[dependencies]
anyhow = "=1.0.104"
chrono = "=0.4.45"
env_logger = "=0.11.11"
futures = "=0.3.34"
log = "=0.4.35"
regex = "=1.13.1"
serde_json = { version = "=1.0.154", features = ["float_roundtrip", "preserve_order"] }
smol = "=2.0.2"
tempfile = "=3.27.0"
zstd = "=0.11.2"

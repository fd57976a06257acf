[package]
name = "raytracer_core"
version = "0.1.0"
edition = "2021"
publish = false

[dependencies]
serde = { version = "=1.0.229", features = ["derive"] }
serde_json = "=1.0.154"
warp = "=0.3.7"
tokio = { version = "=1.54.1", features = ["macros", "rt-multi-thread"] }
futures-util = "=0.3.34"
crossbeam = "=0.8.5"
crossbeam-channel = "=0.5.17"
pretty_env_logger = "=0.5.0"
tracing-log = "=0.2.0"
image = { version = "0.24", default-features = false, features = ["png", "jpeg"] }

[package]
name = "i3bar_river"
version = "0.1.0"
edition = "2021"
publish = false

[dependencies]
memchr = "2"
serde = { version = "1", features = ["derive"] }
serde_json = "1"
anyhow = "1"
log = "0.4"
env_logger = "*"
tokio = { version = "1", features = ["rt", "macros", "io-util", "process", "net"] }
pangocairo = "*"
wayrs-client = "*"
wayrs-utils = { version = "*", features = ["shm_alloc"] }

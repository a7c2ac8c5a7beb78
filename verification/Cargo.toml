[package]
name = "osm_tiles"
version = "0.1.0"
edition = "2021"
publish = false

[dependencies]
serde = { version = "1", features = ["derive"] }
quick-xml = { version = "*", features = ["serialize"] }
ciborium = "*"
axum = "*"
tokio = { version = "1", features = ["macros", "rt-multi-thread", "fs", "sync"] }
tower-http = { version = "*", features = ["cors", "fs"] }
env_logger = "*"
log = "0.4"
cairo-rs = { version = "*", default-features = false, features = ["png"] }

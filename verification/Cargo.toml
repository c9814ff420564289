[package]
name = "media_timeline"
version = "0.1.0"
edition = "2021"
publish = false

[dependencies]
actix-files = "*"
actix-settings = "*"
actix-web = "*"
async-trait = "*"
chrono = "*"
env_logger = "*"
log = "*"
megalodon = "*"
r2d2 = "*"
r2d2_sqlite = { version = "*", features = ["bundled"] }
serde = { version = "*", features = ["derive"] }
serde_json = "*"
tera = "*"
thiserror = "*"
tokio = { version = "*", features = ["full"] }
tokio-util = { version = "*", features = ["rt"] }

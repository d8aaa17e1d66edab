[package]
name = "upload_download"
version = "0.1.0"
edition = "2021"
publish = false

[dependencies]
sha2 = "0.10"
chrono = "0.4"
rand = "0.8"
serde = { version = "1", features = ["derive"] }
actix-web = "4"
actix-multipart = "0.7"
tokio = { version = "1", features = ["fs", "io-util", "macros", "rt-multi-thread"] }
futures-util = "0.3"
log = "0.4"
env_logger = "0.11"
clap = { version = "4", features = ["derive"] }
toml = "0.8"
mime_guess = "2"

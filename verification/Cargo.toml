[package]
name = "photoflow"
version = "0.1.0"
edition = "2021"
publish = false

[dependencies]
anyhow = "1"
chrono = "0.4"
clap = { version = "4", features = ["derive"] }
directories = "*"
futures = "0.3"
indicatif = "*"
keyring = "*"
object_store = { version = "*", features = ["aws"] }
rpassword = "7"
serde = { version = "1", features = ["derive"] }
serde_json = "1"
shellexpand = "*"
thiserror = "*"
tokio = { version = "1", features = ["full"] }
toml = "*"
tracing = "0.1"
tracing-subscriber = "0.3"
trash = "*"
walkdir = "2"

[dev-dependencies]
tempfile = "3"

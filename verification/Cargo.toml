[package]
name = "anybase"
version = "0.1.0"
edition = "2021"
publish = false

[dependencies]
rand = "0.8"
anyhow = "1"
clap = { version = "4", features = ["derive"] }
env_logger = "0.11"
git2 = { version = "0.19", default-features = false }
iterator-ext = "0.2"
log = "0.4"
thiserror = "1"

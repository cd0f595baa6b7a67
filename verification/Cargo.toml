[package]
name = "bendy"
version = "0.4.0"
edition = "2021"
publish = false

[dependencies]
anyhow = "1"
clap = { version = "4", features = ["derive"] }
serde = { version = "1", features = ["derive"] }
serde_bytes = "0.11"
smallvec = "1"
snafu = "0.8"
thiserror = "1"

[dev-dependencies]
regex = "1"

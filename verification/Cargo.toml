[package]
name = "hexis_cli"
version = "0.1.0"
edition = "2021"
publish = false

[dependencies]
chrono = "=0.4.45"
clap = { version = "=4.6.7", features = ["derive"] }
fs2 = "=0.4.3"
ractor = "=0.16.5"
serde_json = "=1.0.154"
sha2 = "0.10"
tempfile = "=3.27.0"
thiserror = "=2.0.21"
tokio = { version = "=1.54.1", features = ["rt-multi-thread", "macros", "sync", "time"] }
toml = "=1.1.8"

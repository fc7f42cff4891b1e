[package]
name = "microduck"
version = "0.1.0"
edition = "2021"
publish = false

[dependencies]
anyhow = "1"
arc-swap = "1"
clap = { version = "4", features = ["derive"] }
hound = "3"
libc = "0.2"
serde = { version = "1", features = ["derive"] }
serde_json = "1"
sha2 = "0.10"
tar = { version = "0.4", default-features = false }
tempfile = "3"
tokio = { version = "1", features = ["process", "sync", "time", "rt"] }
tracing = "0.1"

[package]
name = "cli_tools"
version = "0.1.0"
edition = "2021"
publish = false

[dependencies]
bitvec = "1"
priority-queue = "2"
clap = { version = "4", features = ["derive"] }
tokio = { version = "1", features = ["rt-multi-thread", "macros", "net", "time"] }
axum = "0.8"
reqwest = { version = "0.12", default-features = false }
anyhow = "1"

[package]
name = "i3_config_search"
version = "0.1.0"
edition = "2021"
publish = false

[dependencies]
anyhow = "*"
clap = { version = "*", features = ["derive"] }
enigo = "*"
reqwest = { version = "*", default-features = false }
thiserror = "*"
tokio = { version = "*", features = ["rt", "macros"] }
tokio-i3ipc = "*"

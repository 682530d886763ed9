[package]
name = "o4t"
version = "0.1.0"
edition = "2021"
publish = false

[dependencies]
unicode-width = "*"
unicode-segmentation = "*"
ratatui = "*"
tachyonfx = "*"
clap = { version = "*", features = ["derive"] }
serde = { version = "*", features = ["derive"] }
figment = { version = "*", features = ["toml", "env"] }
etcetera = "*"
rand = "*"
tokio = { version = "*", features = ["rt-multi-thread", "sync", "time", "macros"] }

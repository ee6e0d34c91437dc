[package]
name = "television"
version = "0.1.0"
edition = "2021"
publish = false

[dependencies]
devicons = "*"
ignore = "*"
tokio = { version = "*", features = ["rt", "rt-multi-thread", "macros"] }
clap = { version = "*", features = ["derive"] }
anyhow = "*"
colored = "*"
toml = "*"
serde = { version = "*", features = ["derive"] }
rustc-hash = "*"

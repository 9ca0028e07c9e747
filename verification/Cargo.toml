[package]
name = "treecat"
version = "0.1.0"
edition = "2021"
publish = false

[dependencies]
anstyle = "1"
arboard = { version = "3", default-features = false }
clap = { version = "4", features = ["derive"] }
globset = "0.4"
serde = { version = "1", features = ["derive"] }
thiserror = "2"
toml = "0.8"
walkdir = "2"

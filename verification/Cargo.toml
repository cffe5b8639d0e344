[package]
name = "dotgirl"
version = "0.1.0"
edition = "2021"
publish = false

[dependencies]
clap = "2"
dialoguer = "0.5"
dirs = "2"
fs_extra = "1"
serde = { version = "1", features = ["derive"] }
toml = "0.5"

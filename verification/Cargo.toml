[package]
name = "gleam_build"
version = "0.1.0"
edition = "2021"
publish = false

[dependencies]
notify = "4"
serde = { version = "1", features = ["derive"] }
structopt = "0.3"
toml = "0.5"
walkdir = "2"

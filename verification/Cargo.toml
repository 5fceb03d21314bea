[package]
name = "file_organizer"
version = "0.1.0"
edition = "2021"
publish = false

[dependencies]
infer = "*"
clap = "*"
anyhow = "*"

[dev-dependencies]
mime = "*"

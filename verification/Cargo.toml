[package]
name = "m3u_emu"
version = "0.1.0"
edition = "2021"
publish = false

[dependencies]
anyhow = "1"
clap = { version = "4", features = ["derive"] }
console = "*"
indicatif = "*"
infer = "*"
pathdiff = "0.2"
regex = "1"
walkdir = "2"

[package]
name = "pngmetagrep"
version = "0.1.0"
edition = "2021"
publish = false

[dependencies]
memchr = "2"
regex = "1"
serde_json = "1"
clap = { version = "4", features = ["derive"] }
rayon = "1"
walkdir = "2"
libc = "0.2"

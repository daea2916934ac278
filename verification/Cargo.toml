[package]
name = "pngstreamenc"
version = "0.1.0"
edition = "2021"
publish = false

[dependencies]
clap = { version = "4", features = ["derive"] }
libc = "0.2"
libz-sys = "1"
owo-colors = "4"

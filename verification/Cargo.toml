[package]
name = "srt_adjust"
version = "0.1.0"
edition = "2021"
publish = false

[dependencies]
clap = { version = "4", features = ["derive"] }
codespan-reporting = "0.11"
unicode-width = "0.1"

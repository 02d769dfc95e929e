[package]
name = "polyglot_code_scanner"
version = "0.1.0"
edition = "2021"
publish = false

[dependencies]
anyhow = "1"
clap = { version = "3.2", features = ["derive"] }
content_inspector = "0.2"
encoding_rs_io = "0.1"
filetime = "0.2"
git2 = { version = "*", default-features = false }
hdrhistogram = "7"
ignore = "0.4"
serde = { version = "1", features = ["derive"] }
serde_json = "1"
tokei = "12"
uuid = { version = "1", features = ["v4"] }

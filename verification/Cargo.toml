[package]
name = "rgit"
version = "0.1.0"
edition = "2021"
publish = false

[dependencies]
anyhow = "1"
base64 = "0.22"
clap = { version = "4", features = ["derive"] }
crc32fast = "1"
flate2 = "1"
sha1 = "0.10"
thiserror = "1"
ureq = "2"

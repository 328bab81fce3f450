[package]
name = "strif"
version = "0.1.0"
edition = "2021"
publish = false

[dependencies]
bio = "*"
regex = "*"
serde_json = "*"
anyhow = "*"
csv = "*"
log = "*"
stderrlog = "*"
rust-htslib = "*"
clap = { version = "*", features = ["derive"] }

[package]
name = "xort"
version = "0.1.0"
edition = "2021"
publish = false

[dependencies]
clap = { version = "4", features = ["derive"] }
clap_complete = "4"
csv = "1"
flate2 = "1"
indicatif = "0.17"
memchr = "2"
rayon = "1"
serde_json = { version = "1", features = ["preserve_order"] }
tempfile = "3"
zstd = "0.13"

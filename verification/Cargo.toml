[package]
name = "sled_htap"
version = "0.1.0"
edition = "2021"
publish = false

[dependencies]
rand = "0.8"
crc32fast = "1"
zipf = "7"
hdrhistogram = "7"
anyhow = "1"
clap = { version = "4", features = ["derive"] }
rayon = "1"

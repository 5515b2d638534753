[package]
name = "partar"
version = "0.1.0"
edition = "2021"
publish = false

[dependencies]
flume = "*"
md5 = "*"
sha2 = "*"
tar = "*"
flate2 = "*"
walkdir = "*"
serde = { version = "*", features = ["derive"] }
serde_json = "*"
rmp-serde = "*"
clap = "*"
log = "*"
rayon = "*"

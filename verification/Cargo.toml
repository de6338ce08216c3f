[package]
name = "deflate"
version = "0.1.0"
edition = "2021"
publish = false

[dependencies]
adler = "1"
crc32fast = "1"
fxhash = "0.2"
clap = { version = "4", features = ["derive"] }

[package]
name = "ooo"
version = "0.1.0"
edition = "2021"
publish = false

[dependencies]
clap = { version = "=4.6.7", features = ["derive"] }
flate2 = "=1.1.10"
lz4_flex = "=0.14.0"
xz2 = { version = "=0.1.7", features = ["static"] }
zstd = "=0.14.3"

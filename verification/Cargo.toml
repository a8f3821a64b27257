[package]
name = "solar_log"
version = "0.1.0"
edition = "2021"
publish = false

[dependencies]
chrono = { version = "0.4", default-features = false, features = ["std"] }
rust-lzma = "*"
docopt = "1"
serde = { version = "1", features = ["derive"] }
gnuplot = "*"

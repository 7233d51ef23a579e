[package]
name = "ovc"
version = "0.1.0"
edition = "2021"
publish = false

[dependencies]
chrono = "*"
attohttpc = { version = "*", default-features = false }
reqwest = { version = "*", default-features = false, features = ["blocking"] }
clap = { version = "*", features = ["derive"] }
dirs = "*"
flate2 = "*"
tar = "*"

[package]
name = "config_diff"
version = "0.1.0"
edition = "2021"
publish = false

[dependencies]
bumpalo = "=3.20.3"
clap = { version = "=4.6.7", features = ["derive", "cargo"] }
hashbrown = "=0.9.1"
walkdir = "=2.5.0"

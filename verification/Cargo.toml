[package]
name = "server_rs"
version = "0.1.0"
edition = "2021"
publish = false

[dependencies]
clap = { version = "*", features = ["derive"] }
colog = "*"
env_logger = "*"
log = "*"
nix = { version = "*", features = ["process", "signal", "socket", "net", "time"] }

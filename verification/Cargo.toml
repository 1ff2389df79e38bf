[package]
name = "pixelbomber"
version = "0.1.0"
edition = "2021"
publish = false

[dependencies]
image = { version = "*", default-features = false, features = ["png", "bmp", "jpeg"] }
rand = { version = "*", features = ["small_rng"] }
zstd = "*"
bincode = { version = "*", features = ["derive"] }
bufstream = "*"
clap = { version = "*", features = ["derive"] }
env_logger = "*"
log = "*"
nix = { version = "*", features = ["socket", "net"] }
rscam = "*"
socket2 = "*"
sysinfo = "*"
trust-dns-resolver = "*"

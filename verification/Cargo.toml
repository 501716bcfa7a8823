[package]
name = "wetdet"
version = "0.1.0"
edition = "2021"
publish = false

[dependencies]
heapless = "0.8"
rkyv = "0.8"
anyhow = "1"
clap = { version = "4", features = ["derive"] }
nix = { version = "*", features = ["ioctl"] }
libc = "0.2"
embedded-sdmmc = "0.8"
bme280-multibus = "*"

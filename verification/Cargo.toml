[package]
name = "hostbeacon"
version = "0.1.0"
edition = "2021"
publish = false

[dependencies]
lzma-rs = "*"
hostname = "*"
pnet = "*"
socket2 = "*"
anyhow = "*"

[package]
name = "sysaudit"
version = "0.1.0"
edition = "2021"
publish = false

[dependencies]
anyhow = "1"
md5 = "*"
owo-colors = "*"
procfs = "*"
ar = "*"
tar = "*"
flate2 = "*"
ruzstd = "*"
lzma-rust2 = "*"
http-range-client = "*"
libc = "*"

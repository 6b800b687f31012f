[package]
name = "tfil"
version = "0.1.5"
edition = "2021"
publish = false

[dependencies]
anyhow = "1"
atuin-vt100 = "*"
clap = { version = "4", features = ["derive"] }
crossbeam-channel = "0.5"
libc = "0.2"
memchr = "2"
portable-pty = "*"
signal-hook = "*"
unicode-segmentation = "1"
vtparse = "*"

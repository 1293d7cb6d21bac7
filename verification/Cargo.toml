[package]
name = "global_hotkeys"
version = "0.1.0"
edition = "2021"
publish = false

[dependencies]
anyhow = "*"
clap = { version = "*", features = ["derive"] }
config = "*"
input = "*"
libc = "*"
raw_tty = "*"
serde = { version = "*", features = ["derive"] }

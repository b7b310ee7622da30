[package]
name = "emacs_i3"
version = "0.2.2"
edition = "2021"
publish = false

[dependencies]
anyhow = "=1.0.104"
clap = "=4.6.7"
i3ipc-jl = "*"
serde = { version = "=1.0.229", features = ["derive"] }
socket2 = "=0.6.5"
toml = "=1.1.8"

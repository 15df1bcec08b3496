[package]
name = "histshrink"
version = "0.1.0"
edition = "2021"
publish = false

[dependencies]
anyhow = "*"
btreemultimap = "*"
clap = { version = "*", features = ["derive"] }
home = "*"
log = "*"
regex = "*"
simple_logger = "*"

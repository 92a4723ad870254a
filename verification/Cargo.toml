[package]
name = "pth2st"
version = "0.1.0"
edition = "2021"
publish = false

[dependencies]
zip = "*"
safetensors = "*"
structopt = "*"
color-eyre = "*"
log = "*"
pretty_env_logger = "*"

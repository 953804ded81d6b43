[package]
name = "f_tree"
version = "0.2.2"
edition = "2021"
publish = false

[dependencies]
clap = "4"
env_logger = "*"
forester-rs = "*"
log = "0.4"

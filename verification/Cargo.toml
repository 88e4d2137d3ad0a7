[package]
name = "malleable"
version = "0.1.0"
edition = "2021"
publish = false

[dependencies]
clap = { version = "4", features = ["derive"] }
cpm-rs = "*"
csv = "1"
env_logger = "*"
good_lp = { version = "*", default-features = false, features = ["microlp"] }
itertools = "*"
log = "0.4"
open = "*"
rand = "0.9"
svg = "*"

[package]
name = "ringscan"
version = "0.1.0"
edition = "2021"
publish = false

[dependencies]
io-uring = "*"
nix = "0.26"
regex = "1"
log = "0.4"
simple_logger = "*"
indicatif = "0.17"
structopt = "0.3"
ipnet = "2"

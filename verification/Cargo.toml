[package]
name = "dirxfer"
version = "0.1.0"
edition = "2021"
publish = false

[dependencies]
pcre2 = "*"
ssh2 = "*"
libssh2-sys = "*"
url = "*"
structopt = "*"
crossbeam-channel = "*"
anyhow = "*"
log = "*"
env_logger = "*"
chrono = "*"

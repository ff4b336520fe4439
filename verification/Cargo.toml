[package]
name = "sutp"
version = "0.1.0"
edition = "2021"
publish = false

[dependencies]
byteorder = "1"
bytes = "0.4"
clap = "2"
env_logger = "0.6"
flate2 = "1"
futures = "0.1"
lazy_static = "1"
log = "0.4"
rand = "0.6"
tokio = "0.1"

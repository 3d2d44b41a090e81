[package]
name = "baeum"
version = "0.1.0"
edition = "2021"
publish = false

[dependencies]
rand = "0.4"
byteorder = "1"
clap = "2"
memmap = "0.5"
env_logger = "0.4"
log = "0.3"
rustful = { version = "0.9", default-features = false }
rustc-serialize = "0.3"

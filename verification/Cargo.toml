[package]
name = "rustybf"
version = "0.1.0"
edition = "2021"
publish = false

[dependencies]
clap = "=2.34.0"
env_logger = "=0.11.11"
log = "0.4"
inkwell = { version = "=0.10.0", features = ["llvm14-0-prefer-dynamic"] }
tempfile = "=3.27.0"

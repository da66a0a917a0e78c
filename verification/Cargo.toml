[package]
name = "wizarding"
version = "0.1.0"
edition = "2021"
publish = false

[dependencies]
anyhow = "=1.0.104"
clap = "=2.34.0"
inkwell = { version = "=0.2.0", features = ["llvm14-0-no-llvm-linking"] }
regex = "=1.13.1"
thiserror = "=1.0.69"

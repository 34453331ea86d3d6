[package]
name = "hyperfc"
version = "0.1.0"
edition = "2021"
publish = false

[dependencies]
clap = { version = "4", features = ["cargo"] }
llvm-sys = "*"

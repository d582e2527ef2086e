[package]
name = "riscv_5stage_simulator"
version = "0.1.0"
edition = "2021"
publish = false

[dependencies]
byteorder = "1"
goblin = "*"
lazy_static = "1"
nix = { version = "*", features = ["feature", "fs", "user"] }
structopt = "0.3"

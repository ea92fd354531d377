[package]
name = "bf-jit"
version = "0.1.0"
edition = "2021"
publish = false

[dependencies]
cranelift = "0.68"
cranelift-module = "0.68"
cranelift-simplejit = "0.68"
dirs = "*"
http = "*"
nix = { version = "*", features = ["fs", "process"] }
path-tree = "*"
rusttype = "*"

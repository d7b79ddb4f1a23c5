[package]
name = "snap"
version = "0.1.0"
edition = "2021"
publish = false

[dependencies]
uzers = "*"
humansize = "*"
procfs = "*"
procfs-core = "*"
libc = "*"
rayon = "*"
nix = { version = "*", features = ["fs"] }

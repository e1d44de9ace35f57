[package]
name = "vpnr"
version = "0.1.0"
edition = "2021"
publish = false

[dependencies]
nix = { version = "0.26", features = ["socket", "net"] }

[package]
name = "ws_server"
version = "0.1.0"
edition = "2021"
publish = false

[dependencies]
base64 = "0.22"
sha1 = "0.10"
nix = { version = "0.29", features = ["socket", "net", "uio"] }

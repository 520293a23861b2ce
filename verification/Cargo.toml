[package]
name = "ws_server"
version = "0.1.0"
edition = "2021"

[dependencies]
sha1 = "0.10"

[package]
name = "peer_listener"
version = "0.1.0"
edition = "2021"
publish = false

[dependencies]
internet2 = "*"
log = "0.4"

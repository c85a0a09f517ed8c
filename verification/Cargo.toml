[package]
name = "protocol_mve_transport"
version = "0.1.0"
edition = "2021"
publish = false

[dependencies]
bincode = "1"
futures = "0.3"

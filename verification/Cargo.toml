[package]
name = "keeprs_core"
version = "0.1.0"
edition = "2021"
publish = false

[dependencies]
uuid = { version = "=1.27.0", features = ["v4"] }
keepass = { version = "=0.15.0", features = ["save_kdbx4"] }

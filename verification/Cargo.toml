[package]
name = "nostdb-core"
version = "0.1.0"
edition = "2021"
publish = false

[dependencies]
unicode-ident = "1"
uuid = { version = "1", features = ["v7"] }

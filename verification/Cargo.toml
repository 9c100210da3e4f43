[package]
name = "grit"
version = "0.1.0"
edition = "2021"
publish = false

[dependencies]
sha1 = "0.10"
base16ct = { version = "0.2", features = ["alloc"] }
clap = "4"

[package]
name = "lox"
version = "0.1.0"
edition = "2021"
publish = false

[dependencies]
derive_more = { version = "2", features = ["display"] }
thiserror = "2"

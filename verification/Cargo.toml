[package]
name = "lightswitch"
version = "0.1.0"
edition = "2021"
publish = false

[dependencies]
dirs = "*"
tokio = { version = "*", features = ["macros", "rt-multi-thread"] }

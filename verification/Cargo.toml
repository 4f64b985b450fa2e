[package]
name = "fssa"
version = "0.1.0"
edition = "2021"
publish = false

[dependencies]
hex = "0.4"
arguments = "*"
crossterm = "*"
indicatif = "*"
tokio = { version = "1", features = ["macros", "rt-multi-thread"] }

[package]
name = "punch"
version = "0.1.0"
edition = "2021"
publish = false

[dependencies]
clap = { version = "3.2", features = ["derive"] }
home = "0.5"
opener = "0.5"

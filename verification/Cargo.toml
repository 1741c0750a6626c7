[package]
name = "line_utils"
version = "0.1.0"
edition = "2021"
publish = false

[dependencies]
clap = { version = "4", features = ["derive"] }
float-ord = "0.3"
memmap = "0.7"

[package]
name = "flerp"
version = "0.2.0"
edition = "2021"
publish = false

[dependencies]
clap = { version = "*", features = ["derive"] }
colored = "*"
crossterm = "*"
pdf-extract = "*"
ratatui = "*"

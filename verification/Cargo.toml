[package]
name = "gufi_change_finder"
version = "0.1.0"
edition = "2021"
publish = false

[dependencies]
indextree = "*"
regex = "*"
clap = { version = "*", features = ["derive"] }
users = "*"

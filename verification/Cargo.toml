[package]
name = "temple"
version = "0.1.0"
edition = "2021"
publish = false

[dependencies]
anyhow = "1"
clap = { version = "4", features = ["derive"] }
directories = "5"
inquire = "0.7"
walkdir = "2"

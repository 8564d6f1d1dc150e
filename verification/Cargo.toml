[package]
name = "pscan"
version = "0.1.0"
edition = "2021"
publish = false

[dependencies]
clap = { version = "4", features = ["derive"] }
num_cpus = "1"
once_cell = "1"
ping-rs = "0.1"

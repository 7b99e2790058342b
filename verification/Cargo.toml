[package]
name = "zjyo"
version = "0.1.0"
edition = "2021"
publish = false

[dependencies]
clap = "4"
home = "0.5"

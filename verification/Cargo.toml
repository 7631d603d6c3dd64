[package]
name = "y86fmt"
version = "0.1.0"
edition = "2021"
publish = false

[dependencies]
clap = { version = "4", features = ["derive"] }
tree-sitter = "0.24"

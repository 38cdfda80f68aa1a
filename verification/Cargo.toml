[package]
name = "codecrafters_shell"
version = "0.1.0"
edition = "2021"
publish = false

[dependencies]
prefix-tree-rs = "*"
rustyline = "*"
unescape = "=0.1.0"

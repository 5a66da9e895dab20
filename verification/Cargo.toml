[package]
name = "codecrafters-dns-server"
version = "0.1.0"
edition = "2021"
publish = false

[dependencies]
bit = "0.1"
bytes = "1"
thiserror = "1"

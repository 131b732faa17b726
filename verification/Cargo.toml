[package]
name = "wasmsh"
version = "0.1.0"
edition = "2021"
publish = false

[dependencies]
indexmap = "2"
posix-regex = "*"
smol_str = "0.3"
libc = "0.2"
serde = { version = "1", features = ["derive"] }
serde_json = "1"

[package]
name = "sigil_chat"
version = "0.1.0"
edition = "2021"
publish = false

[dependencies]
dirs = "=7.0.0"
tracing = "=0.1.44"
rfd = { version = "=0.17.2", default-features = false, features = ["xdg-portal"] }

[package]
name = "autorct"
version = "0.1.0"
edition = "2021"
publish = false

[dependencies]
inotify = "*"
regex = "1"

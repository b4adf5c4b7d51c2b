[package]
name = "file_archive"
version = "0.1.0"
edition = "2021"
publish = false

[dependencies]
crossterm = "*"
sqlite = "*"
tokio = { version = "1", features = ["macros", "rt-multi-thread", "sync", "time"] }

[package]
name = "fswatcher"
version = "0.1.0"
edition = "2021"
publish = false

[dependencies]
futures = "*"
inotify = { version = "*", features = ["stream"] }
tokio = { version = "*", features = ["macros", "rt", "time"] }

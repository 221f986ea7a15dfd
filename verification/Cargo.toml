[package]
name = "jaso"
version = "0.1.0"
edition = "2021"
publish = false

[dependencies]
unicode-normalization = "0.1"
tokio = { version = "1", features = ["rt-multi-thread", "fs", "macros", "sync", "time"] }
clap = { version = "4", features = ["derive"] }
rlimit = "*"
async-recursion = "1"

[package]
name = "timetrack"
version = "0.1.0"
edition = "2021"
publish = false

[dependencies]
clap = "*"
tokio = { version = "*", features = ["rt", "time", "macros", "io-std", "io-util", "sync"] }

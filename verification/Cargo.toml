[package]
name = "scrapper"
version = "0.1.0"
edition = "2021"
publish = false

[dependencies]
url = "*"
regex = "*"
colored = "*"
clap = { version = "*", features = ["derive"] }
tokio = { version = "*", default-features = false, features = ["rt-multi-thread", "macros", "time"] }
reqwest = { version = "*", default-features = false }

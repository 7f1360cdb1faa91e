[package]
name = "npma"
version = "0.1.0"
edition = "2021"
publish = false

[dependencies]
chrono = { version = "0.4", default-features = false, features = ["std"] }
clap = { version = "4", features = ["cargo"] }
clap_complete = "4"
color-eyre = "0.6"
comfy-table = "7"
indicatif = "*"
itertools = "*"
mimalloc = "*"
regex = "1"
tokio = { version = "1", features = ["fs", "io-std", "io-util", "macros", "rt-multi-thread"] }
tokio-stream = { version = "0.1", features = ["io-util"] }

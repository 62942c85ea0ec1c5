[package]
name = "efficient_file_writer"
version = "0.1.0"
edition = "2021"
publish = false

[dependencies]
anvil-core = "*"
clap = { version = "*", features = ["derive", "env"] }
ethers-core = "*"
ethers-providers = { version = "*", features = ["ws", "rustls"] }
fastrlp = "*"
hex = "*"
tokio = { version = "*", features = ["rt-multi-thread", "macros"] }
tracing = "*"
tracing-subscriber = { version = "*", features = ["env-filter"] }

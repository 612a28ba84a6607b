[package]
name = "repcon"
version = "0.1.0"
edition = "2021"
publish = false

[dependencies]
clap = { version = "*", features = ["derive"] }
dotenv = "*"
ignore = "*"
reqwest = { version = "*", default-features = false, features = ["multipart", "rustls-tls"] }
tokio = { version = "*", features = ["macros", "rt-multi-thread", "fs", "io-util"] }

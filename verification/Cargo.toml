[package]
name = "dictpipe"
version = "0.1.0"
edition = "2021"
publish = false

[dependencies]
cursive = "*"
dotenv = "*"
json = "*"
reqwest = { version = "*", default-features = false, features = ["rustls-tls"] }
tokio = { version = "*", features = ["macros", "rt-multi-thread"] }

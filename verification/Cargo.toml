[package]
name = "tsfrv"
version = "0.1.0"
edition = "2021"
publish = false

[dependencies]
chrono = "0.4"
clap = "2"
futures-util = "0.3"
tokio = { version = "1", features = ["io-util", "macros", "net", "rt-multi-thread", "signal"] }
tokio-rustls = "0.22"
webpki-roots = "0.21"
worker = "*"

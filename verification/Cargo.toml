[package]
name = "sdproxy"
version = "0.1.0"
edition = "2021"
publish = false

[dependencies]
once_cell = "1"
rustls-pemfile = "1"
tokio = { version = "1", features = ["io-util", "macros", "net", "rt-multi-thread", "sync", "time"] }
tokio-rustls = "0.24"

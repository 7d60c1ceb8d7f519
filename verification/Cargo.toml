[package]
name = "load_harness"
version = "0.1.0"
edition = "2021"
publish = false

[dependencies]
futures-util = "0.3"
memory-stats = "1"
reqwest = { version = "0.12", default-features = false, features = ["charset", "http2", "rustls-tls", "stream"] }
tokio = { version = "1", features = ["macros", "rt-multi-thread", "time"] }
ureq = "3"

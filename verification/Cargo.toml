[package]
name = "narad"
version = "0.1.0"
edition = "2021"
publish = false

[dependencies]
chrono = "0.4"
dns-lookup = "2"
tokio = { version = "1", features = ["rt-multi-thread", "macros", "net", "io-util", "sync"] }
reqwest = { version = "0.12", default-features = false, features = ["blocking"] }
gtk4 = "0.9"

[package]
name = "rsspec"
version = "0.7.0"
edition = "2021"
publish = false

[dependencies]
tokio = { version = "1", features = ["rt", "net", "time", "sync"] }

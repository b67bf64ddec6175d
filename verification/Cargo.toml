[package]
name = "drust_apps"
version = "0.1.0"
edition = "2021"
publish = false

[dependencies]
csv = "1"
dirs = "5"
rand = "0.8"
tokio = { version = "1", features = ["rt-multi-thread", "macros", "time", "sync"] }

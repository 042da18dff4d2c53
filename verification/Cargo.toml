[package]
name = "etab_projects"
version = "0.1.0"
edition = "2021"
publish = false

[dependencies]
uuid = { version = "*", features = ["v4"] }
chrono = "*"
tokio = { version = "*", features = ["rt-multi-thread", "sync", "fs", "macros"] }
dirs = "*"

[dev-dependencies]
serde_json = "*"

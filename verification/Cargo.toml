[package]
name = "acd"
version = "0.1.0"
edition = "2021"
publish = false

[dependencies]
append-only-vec = "*"
arcstr = "*"
futures = "*"
hipstr = "*"
scc = "*"
serde = { version = "1", features = ["derive"] }
serde_json = "1"
tokio = { version = "1", features = ["macros", "rt-multi-thread", "fs", "sync", "time"] }

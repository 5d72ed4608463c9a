[package]
name = "domain-stats"
version = "0.1.0"
edition = "2021"
publish = false

[dependencies]
serde_json = "1"
reqwest = { version = "*", default-features = false, features = ["http2"] }
tokio = { version = "1", features = ["rt", "time", "sync", "macros"] }
sqlx = { version = "*", default-features = false, features = ["sqlite", "runtime-tokio"] }
sysinfo = "*"
if-addrs = "*"
time = "*"
tracing = "*"

[package]
name = "intentionality"
version = "0.5.0"
edition = "2021"
publish = false

[dependencies]
chrono = "=0.4.45"
imagesize = "=0.15.0"
lopdf = { version = "=0.46.0", default-features = false }
quick-xml = "=0.42.0"
rand = "=0.9.5"
reqwest = { version = "=0.12.28", default-features = false, features = ["json", "multipart"] }
rusqlite = "=0.41.1"
serde = { version = "=1.0.229", features = ["derive"] }
serde_json = "=1.0.154"
thiserror = "=2.0.21"
tokio = { version = "=1.54.1", features = ["fs", "io-util", "macros", "process", "rt-multi-thread", "sync", "time"] }
zip = { version = "=8.6.0", default-features = false, features = ["deflate"] }

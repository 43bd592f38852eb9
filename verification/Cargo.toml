[package]
name = "summ"
version = "0.1.0"
edition = "2021"
publish = false

[dependencies]
async-trait = "0.1"
axum = "0.8"
bytes = "1"
clap = { version = "4", features = ["derive", "env"] }
futures-core = "0.3"
futures-util = "0.3"
postcard = { version = "1", features = ["alloc"] }
redb = "*"
rocksdb = { version = "*", default-features = false }
serde = { version = "1", features = ["derive"] }
serde_json = "1"
sha2 = "0.11"
thiserror = "2"
tokio = { version = "1", features = ["full"] }
tower-http = { version = "0.6", features = ["trace", "set-header"] }
tracing = "0.1"
tracing-subscriber = { version = "0.3", features = ["env-filter"] }
uuid = { version = "1", features = ["v4"] }

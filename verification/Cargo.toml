[package]
name = "blaze"
version = "0.1.0"
edition = "2021"
publish = false

[dependencies]
anyhow = "1"
arrow-array = "*"
arrow-ord = "*"
arrow-schema = "*"
arrow-select = "*"
axum = "0.8"
bytes = "1"
clap = { version = "4", features = ["derive"] }
dashmap = "6"
futures = "0.3"
k8s-openapi = { version = "*", features = ["latest"] }
kube = { version = "*", default-features = false, features = ["client", "rustls-tls"] }
memmap2 = "0.9"
object_store = { version = "*", default-features = false, features = ["aws", "fs"] }
parking_lot = "0.12"
parquet = { version = "*", default-features = false, features = ["arrow", "zstd"] }
rand = "*"
serde = { version = "1", features = ["derive"] }
serde_json = "1"
smallvec = "1"
thiserror = "2"
tokio = { version = "1", features = ["full"] }
tonic = "0.14"
tracing = "0.1"
tracing-subscriber = { version = "0.3", features = ["env-filter"] }
uuid = { version = "1", features = ["v4"] }

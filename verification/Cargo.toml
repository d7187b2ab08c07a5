[package]
name = "clob"
version = "0.1.0"
edition = "2021"
publish = false

[dependencies]
async-stream = "0.3"
bincode = "1.3"
clap = { version = "4", features = ["derive"] }
config = { version = "0.14", default-features = false, features = ["toml"] }
dashmap = "5"
ed25519-dalek = { version = "2", features = ["serde"] }
futures = "0.3"
futures-util = "0.3"
hdrhistogram = { version = "7", default-features = false }
hex = "0.4"
rand = "0.8"
redis = { version = "0.25", features = ["tokio-comp"] }
reqwest = { version = "0.11", default-features = false, features = ["json"] }
rust_decimal = { version = "1", features = ["serde-str"] }
rust_decimal_macros = "1"
serde = { version = "1", features = ["derive"] }
serde_json = "1"
sha2 = "0.10"
thiserror = "1"
tokio = { version = "1", features = ["full"] }
tokio-tungstenite = "0.21"
tracing = "0.1"
tracing-subscriber = { version = "0.3", features = ["env-filter"] }
url = "2"
warp = "0.3"

[package]
name = "edgy_s"
version = "1.1.0"
edition = "2021"
publish = false

[dependencies]
hyper = { version = "1", features = ["server", "client", "http1"] }
hyper-util = { version = "0.1", features = ["tokio", "client-legacy", "http1"] }
hyper-tls = "0.6"
tokio = { version = "1", features = ["full"] }
tokio-tungstenite = "*"
tokio-util = "0.7"
futures-util = { version = "0.3", features = ["sink"] }
parking_lot = "0.12"
percent-encoding = "2"
postcard = { version = "1", features = ["alloc"] }
serde = { version = "1", features = ["derive"] }
serde_json = "1"
cbor4ii = { version = "1", features = ["serde1"] }
tracing = "0.1"

[package]
name = "grpc_opizontas"
version = "0.1.0"
edition = "2021"
publish = false

[dependencies]
uuid = { version = "*", features = ["v4"] }
tokio = { version = "*", features = ["rt-multi-thread", "macros", "sync", "time"] }
tonic = "*"
prost = "*"
http = "*"
http-body = "*"
http-body-util = "*"
bytes = "*"
tower = { version = "*", features = ["util"] }
futures = "*"
tokio-stream = { version = "*", features = ["sync"] }
dashmap = "*"
serde = { version = "*", features = ["derive"] }
toml = "*"
envy = "*"
dotenvy = "*"
tracing = "*"
tracing-subscriber = { version = "*", features = ["env-filter"] }

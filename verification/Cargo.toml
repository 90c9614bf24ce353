[package]
name = "st-rust"
version = "0.1.0"
edition = "2021"
publish = false

[dependencies]
anyhow = "=1.0.104"
bytes = "=1.12.1"
data-encoding = "=2.11.1"
directories = "=3.0.2"
fastrand = "=1.9.0"
lz4_flex = "=0.7.5"
parking_lot = "=0.11.2"
prost = "=0.7.0"
protobuf = "=2.28.0"
ring = "=0.16.20"
rustls = { version = "=0.19.1", features = ["dangerous_configuration"] }
serde = { version = "=1.0.229", features = ["derive"] }
tokio = { version = "=1.54.1", features = ["rt-multi-thread", "macros", "net", "io-util", "sync", "time", "signal"] }
tokio-rustls = "=0.22.0"
toml = "=0.5.11"
tracing = "=0.1.44"
tracing-futures = "=0.2.5"
tracing-subscriber = "=0.2.25"
url = "=2.5.8"

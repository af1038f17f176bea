[package]
name = "exchange"
version = "0.1.0"
edition = "2021"
publish = false

[dependencies]
slab = "*"
smallvec = "*"
fxhash = "*"
disruptor = "*"
parking_lot = "*"
serde = { version = "*", features = ["derive"] }
serde_json = "*"
thiserror = "*"
chrono = "*"
crossbeam = "*"
tokio = { version = "*", features = ["sync", "rt"] }
axum = "*"
rdkafka = "*"

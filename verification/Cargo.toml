[package]
name = "topology"
version = "0.1.0"
edition = "2021"
publish = false

[dependencies]
rand = "0.8"
serde = { version = "1", features = ["derive"] }
deepsize2 = "0.1"
tracing-subscriber = "0.3"

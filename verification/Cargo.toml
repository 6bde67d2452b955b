[package]
name = "ferrobus_core"
version = "0.1.0"
edition = "2021"
publish = false

[dependencies]
hashbrown = "*"
chrono = { version = "0.4", default-features = false, features = ["std"] }
petgraph = "*"
h3o = "*"
postcard = { version = "1", features = ["use-std"] }
serde = { version = "1", features = ["derive"] }

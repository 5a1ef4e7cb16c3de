[package]
name = "roomsync"
version = "0.1.0"
edition = "2021"
publish = false

[dependencies]
uuid = { version = "*", features = ["v7"] }
rand = "*"
serde_json = "*"
serde = { version = "*", features = ["derive"] }
rmp-serde = "*"
axum = "*"
tokio = { version = "*", features = ["rt-multi-thread", "macros", "net", "time"] }
parking_lot = "*"

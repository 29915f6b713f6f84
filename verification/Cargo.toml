[package]
name = "wavesyncdb"
version = "0.1.0"
edition = "2021"
publish = false

[dependencies]
uuid = { version = "*", features = ["v4"] }
tokio = { version = "*", features = ["rt-multi-thread", "sync", "time", "macros"] }
sea-orm = { version = "*", default-features = false, features = ["sqlx-sqlite", "runtime-tokio"] }
libp2p = { version = "*", features = ["tokio", "tcp", "noise", "yamux", "gossipsub", "mdns", "identify", "ping", "macros"] }
serde = { version = "*", features = ["derive"] }
serde_json = "*"
log = "*"

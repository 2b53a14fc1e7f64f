[package]
name = "reviewmesh"
version = "0.1.0"
edition = "2021"
publish = false

[dependencies]
chrono = "*"
futures = "*"
git2 = { version = "*", default-features = false }
libp2p = { version = "*", default-features = false, features = ["floodsub", "mdns", "tcp", "noise", "yamux", "tokio", "macros"] }
rusqlite = { version = "*", features = ["bundled"] }
serde = { version = "*", features = ["derive"] }
serde_json = "*"
tokio = { version = "*", features = ["rt-multi-thread", "macros", "sync", "time"] }
uuid = { version = "*", features = ["v4"] }
whoami = "*"

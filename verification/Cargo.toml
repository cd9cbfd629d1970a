[package]
name = "sheeld"
version = "0.1.0"
edition = "2021"
publish = false

[dependencies]
libp2p = { version = "*", features = ["tokio", "tcp", "noise", "yamux", "kad", "gossipsub", "macros"] }
tokio = { version = "*", features = ["full"] }
futures = "*"
serde = { version = "*", features = ["derive"] }
serde_json = "*"
discv5 = "*"
fast-socks5 = "*"

[package]
name = "pma_gateway"
version = "0.1.0"
edition = "2021"
publish = false

[dependencies]
blake3 = "1"
getrandom = "0.3"
salvo = { version = "*", features = ["affix-state"] }
reqwest = "*"
tokio = { version = "1", features = ["rt-multi-thread", "macros", "net"] }
rusqlite = { version = "*", features = ["bundled"] }
serde = { version = "1", features = ["derive"] }
futures = "0.3"
libc = "0.2"

[package]
name = "terminal_remote"
version = "0.1.0"
edition = "2021"
publish = false

[dependencies]
libc = "=0.2.190"
serde = { version = "=1.0.229", features = ["derive"] }
serde_json = "=1.0.151"
tokio = { version = "=1.53.2", features = ["io-util", "macros", "net", "rt-multi-thread", "sync", "time"] }
uuid = { version = "=1.27.0", features = ["v4"] }

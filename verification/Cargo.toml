[package]
name = "idiod"
version = "0.1.0"
edition = "2021"
publish = false

[dependencies]
anyhow = "1"
arraydeque = "0.5"
clap = { version = "4", features = ["derive"] }
libc = "0.2"
movavg = "2"
nftables = { version = "0.6", features = ["tokio"] }
regex = "1"
sd-notify = "0.4"
serde = { version = "1", features = ["derive"] }
tokio = { version = "1", features = ["full"] }
toml = "0.8"

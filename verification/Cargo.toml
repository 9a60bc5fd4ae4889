[package]
name = "stegoshare"
version = "0.1.0"
edition = "2021"
publish = false

[dependencies]
image = "=0.25.10"
rand = "=0.10.3"
sysinfo = "=0.39.6"
tokio = { version = "=1.53.2", features = ["full"] }

[package]
name = "omnimap"
version = "0.1.0"
edition = "2021"
publish = false

[dependencies]
anyhow = "=1.0.104"
base64 = "=0.23.1"
clap = "=4.6.7"
num_cpus = "=1.17.0"
quick-js = "=0.4.1"
serde = { version = "=1.0.229", features = ["derive"] }
serde_json = { version = "=1.0.151" }
uuid = { version = "=1.27.0", features = ["v4"] }

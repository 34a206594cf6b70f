[package]
name = "cgroup-stats-cli"
version = "0.1.0"
edition = "2021"
publish = false

[dependencies]
cgroups-rs = "=0.5.1"
clap = { version = "=4.6.7", features = ["derive"] }
comfy-table = "=7.2.2"
serde = { version = "=1.0.229", features = ["derive"] }
serde_json = "=1.0.154"

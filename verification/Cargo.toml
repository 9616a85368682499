[package]
name = "dm_core"
version = "0.1.0"
edition = "2021"
publish = false

[dependencies]
git2 = "*"
cron = "*"
chrono = "*"
serde = "*"
serde_derive = "*"
serde_json = "*"
serde_yaml = "*"

[package]
name = "champ_select"
version = "0.1.0"
edition = "2021"
publish = false

[dependencies]
multimap = "*"
rand = "0.8"
serde_json = "1"
anyhow = "1"
tabled = "*"
futures = "0.3"
riven = "*"

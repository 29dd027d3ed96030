[package]
name = "timelock_vault"
version = "0.1.0"
edition = "2021"
publish = false

[dependencies]
wingedcap = "*"
futures = "*"
serde = "*"
serde_json = "*"

[package]
name = "cdp_core"
version = "0.1.0"
edition = "2021"
publish = false

[dependencies]
serde_json = "*"
fnv = "*"
chromiumoxide_types = "*"
futures = "*"
pin-project-lite = "*"

[package]
name = "osmmodels"
version = "0.1.0"
edition = "2021"
publish = false

[dependencies]
roxmltree = "*"
serde_json = "=1.0.151"
ureq = "=2.12.1"
url = "=2.5.8"

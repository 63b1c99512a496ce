[package]
name = "shorturls"
version = "0.1.0"
edition = "2021"
publish = false

[dependencies]
url = "*"
flate2 = "*"
redis = "*"

[dev-dependencies]
serde_json = "*"

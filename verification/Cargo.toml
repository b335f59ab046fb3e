[package]
name = "retirement_calc"
version = "0.1.0"
edition = "2021"
publish = false

[dependencies]
indexmap = "*"
uuid = { version = "*", features = ["v4"] }

[dev-dependencies]
serde_json = "*"

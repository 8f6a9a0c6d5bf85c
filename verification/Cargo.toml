[package]
name = "data_inspector"
version = "0.9.1"
edition = "2021"
publish = false

[dependencies]
csv = "1"
serde_json = "1"
gtk4 = { version = "*", features = ["v4_12"] }
libadwaita = { version = "*", features = ["v1_5"] }

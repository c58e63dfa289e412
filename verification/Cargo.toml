[package]
name = "eql_alerts"
version = "0.1.0"
edition = "2021"
publish = false

[dependencies]
regex = "1"
md5 = "*"
roxmltree = "*"
uuid = { version = "1", features = ["v4"] }
serde = { version = "1", features = ["derive"] }
serde_json = "1"
zip = "*"
base64 = "*"
hound = "3"
parking_lot = "*"

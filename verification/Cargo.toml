[package]
name = "editsync"
version = "0.1.0"
edition = "2021"
publish = false

[dependencies]
diff = "=0.1.13"
serde_json = "=1.0.154"
url = "2"

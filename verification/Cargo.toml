[package]
name = "frameui"
version = "0.1.0"
edition = "2021"
publish = false

[dependencies]
cssparser = "0.27"
url = "2"
serde = { version = "1", features = ["derive"] }
serde_json = "1"
rhai = "1"

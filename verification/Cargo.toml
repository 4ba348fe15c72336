[package]
name = "socketio_codec"
version = "0.1.0"
edition = "2021"
publish = false

[dependencies]
base64 = "0.21"
bytes = "1"
serde = "1"
serde_json = "1"

[package]
name = "dinoscore"
version = "0.4.0"
edition = "2021"
publish = false

[dependencies]
uuid = { version = "=1.29.0", features = ["v4", "serde"] }
midi-event = "=0.2.1"
serde = { version = "=1.0.229", features = ["derive"] }
serde_json = "=1.0.154"
zip = { version = "=9.2.2", default-features = false, features = ["deflate"] }
anyhow = "=1.0.104"
image = { version = "*", default-features = false }
imageproc = { version = "*", default-features = false }

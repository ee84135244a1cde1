[package]
name = "themosis"
version = "0.1.0"
edition = "2021"
publish = false

[dependencies]
kdl = "6"
serde_json = "1"
clap = { version = "4", features = ["derive"] }
tempfile = "3"

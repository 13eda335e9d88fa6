[package]
name = "waysn"
version = "0.1.0"
edition = "2021"
publish = false

[dependencies]
tempergb = "*"
clap = { version = "*", features = ["derive"] }
tokio = { version = "*", features = ["full"] }
serde = { version = "*", features = ["derive"] }
serde_json = "*"
tempfile = "*"
wayland-client = "*"
wayland-protocols-wlr = { version = "*", features = ["client"] }

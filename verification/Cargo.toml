[package]
name = "inertia"
version = "0.1.0"
edition = "2021"
publish = false

[dependencies]
evdev = "=0.12.2"
serde = { version = "=1.0.229", features = ["derive"] }
toml = "=0.8.23"
uinput = { version = "=0.1.3", default-features = false }

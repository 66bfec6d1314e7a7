[package]
name = "powerdisplay"
version = "0.1.0"
edition = "2021"
publish = false

[dependencies]
anyhow = "=1.0.104"
gtk4 = "=0.9.7"
notify = "=8.2.1"
rustix = { version = "=1.1.6", features = ["event", "fs"] }
serde = { version = "=1.0.229", features = ["derive"] }
serde_json = "=1.0.154"
toml = "=0.8.23"
tracing = "=0.1.44"
tracing-subscriber = { version = "=0.3.23", features = ["env-filter"] }
udev = { version = "=0.9.3", features = ["send"] }
wayland-client = "=0.31.15"
wayland-protocols-wlr = { version = "=0.3.12", features = ["client"] }
x11rb = { version = "=0.13.2", features = ["randr"] }
zbus = "=5.19.0"

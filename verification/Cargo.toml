[package]
name = "qmassa"
version = "1.2.0"
edition = "2021"
publish = false

[dependencies]
libc = "=0.2.191"
anyhow = "=1.0.104"
clap = { version = "=4.6.7", features = ["derive"] }
serde = { version = "=1.0.229", features = ["derive"] }
serde_json = "=1.0.154"
udev = "=0.9.3"
log = "=0.4.35"
env_logger = "=0.11.11"
ratatui = "=0.30.2"
crossterm = "=0.29.0"
itertools = "=0.15.0"
tui-scrollview = "=0.6.8"
plotters = { version = "=0.3.7", default-features = false, features = ["svg_backend", "line_series"] }
metrics = "*"
metrics-exporter-prometheus = "*"

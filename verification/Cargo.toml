[package]
name = "deltax2sort"
version = "0.1.0"
edition = "2021"
publish = false

[dependencies]
anyhow = "=1.0.104"
async-trait = "=0.1.92"
clap = { version = "=4.6.7", default-features = false, features = ["std", "help", "usage", "derive"] }
flexi_logger = "=0.31.10"
log = "=0.4.35"
opencv = "=0.101.1"
serde = { version = "=1.0.229", features = ["derive"] }
serialport = { version = "=4.10.1", default-features = false }
slint = { version = "=1.18.1", default-features = false, features = ["std", "compat-1-2"] }
tokio = { version = "=1.54.1", features = ["rt-multi-thread", "macros", "sync", "time"] }
toml = "=1.1.8"
tract-onnx = "=0.23.9"

[package]
name = "eink_frame"
version = "0.1.0"
edition = "2021"
publish = false

[dependencies]
anyhow = "1"
futures = "0.3"
hostname = "0.4"
image = { version = "0.25", default-features = false, features = ["png", "jpeg"] }
jiff = "0.2"
nmrs = "3"
rand = "0.9"
reqwest = { version = "0.12", default-features = false, features = ["rustls-tls"] }
rkyv = "0.8"
rkyv_util = "=0.1.0-alpha.2"
serde = { version = "1", features = ["derive"] }
serde_json = "1"
softbuffer = "0.4"
spidev = "0.7"
tokio = { version = "1", features = ["full"] }
tokio-gpiod = "0.3"
winit = "0.30"

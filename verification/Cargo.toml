[package]
name = "wipro"
version = "0.1.0"
edition = "2021"
publish = false

[dependencies]
anyhow = "1"
base64 = "0.22"
chrono = "0.4"
clap = "4"
crossterm = "0.28"
embassy-executor = "0.7"
embassy-futures = "0.1"
embassy-sync = "0.6"
embassy-time = { version = "0.4", features = ["std"] }
esp-idf-svc = "0.51"
get_if_addrs = "0.5"
heapless = "0.8"
log = "0.4"
mac_address = "1"
nalgebra = "0.33"
num-complex = "0.4"
once_cell = "1"
portable-atomic = "1"
ratatui = "0.29"
rmp-serde = "1"
serde = { version = "1", features = ["derive"] }
static_cell = "2"
tokio = { version = "1", features = ["full"] }
tokio-serial = { version = "5", default-features = false }
ws2812-esp32-rmt-driver = "*"
zeromq = "0.4"

[package]
name = "common"
version = "0.1.0"
edition = "2021"
publish = false

[dependencies]
serial-line-ip = "*"
cortex-m = "*"
usb-device = "*"
usbd-serial = "*"
accelerometer = "*"
rusb = "*"
log = "*"
env_logger = "*"
thiserror = "*"

[dev-dependencies]
serde_cbor = "*"

[package]
name = "hacore"
version = "0.1.0"
edition = "2021"
publish = false

[dependencies]
sqlite = "=0.37.4"
paho-mqtt = { version = "=0.14.0", default-features = false }
ureq = "=2.12.1"
dotenv = "=0.15.0"

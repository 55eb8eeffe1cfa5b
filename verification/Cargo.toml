[package]
name = "rtt_framing"
version = "0.1.0"
edition = "2021"
publish = false

[dependencies]
tokio = { version = "*", features = ["sync", "rt-multi-thread", "time", "macros"] }
probe-rs = "*"

[dev-dependencies]
cobs = "*"

[package]
name = "poll_engine"
version = "0.1.0"
edition = "2021"
publish = false

[dependencies]
futures-core = "0.3"
futures-sink = "0.3"
futures-io = "0.3"
futures-channel = "0.3"

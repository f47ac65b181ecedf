[package]
name = "txpool"
version = "0.1.0"
edition = "2021"
publish = false

[dependencies]
futures = "0.3"
indexmap = "2"
parking_lot = "0.12"
tracing = "0.1"

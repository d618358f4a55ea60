[package]
name = "nats_core"
version = "0.1.0"
edition = "2021"
publish = false

[dependencies]
crossbeam-channel = "*"
parking_lot = "*"
nuid = "*"
log = "*"

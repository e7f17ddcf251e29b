[package]
name = "slotpool"
version = "0.1.0"
edition = "2021"
publish = false

[dependencies]
critical-section = { version = "1", features = ["std"] }
heapless = "0.8"
embassy-sync = "0.6"

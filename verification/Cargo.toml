[package]
name = "js_memory_manager"
version = "0.1.0"
edition = "2021"
publish = false

[dependencies]
lazy_static = "*"
libc = "*"
parking_lot = "*"

[package]
name = "thread_safe_var"
version = "0.1.0"
edition = "2021"
publish = false

[dependencies]
libc = "0.2"
parking_lot = "0.12"
rclite = "*"

[package]
name = "kernel_core"
version = "0.1.0"
edition = "2021"
publish = false

[dependencies]
crossbeam-queue = "0.2"
futures-util = { version = "0.3", default-features = false, features = ["alloc"] }
conquer-once = { version = "0.2", default-features = false }
pc-keyboard = "0.5"
spin = "0.5"
lazy_static = "1"
volatile = "0.2"
x86_64 = { version = "0.15", default-features = false, features = ["instructions"] }

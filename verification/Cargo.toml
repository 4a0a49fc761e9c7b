[package]
name = "life2"
version = "0.1.0"
edition = "2021"
publish = false

[dependencies]
embedded-graphics = "0.8"
nanorand = { version = "0.7", default-features = false, features = ["pcg64"] }
display-interface = "0.5"
embedded-hal = "1.0"
embedded-hal-async = "1.0"
mipidsi = "0.8"
embassy-time = "*"
embassy-futures = "0.1"
embassy-executor = "*"
microbit-bsp = "*"
panic-probe = "*"

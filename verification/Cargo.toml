[package]
name = "st7789v_driver"
version = "0.1.0"
edition = "2021"
publish = false

[dependencies]
embedded-graphics-core = "0.4"
embedded-hal = "0.2"
stm32f1xx-hal = { version = "*", features = ["stm32f103"] }

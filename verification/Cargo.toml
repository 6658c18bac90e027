[package]
name = "willo"
version = "0.1.0"
edition = "2021"
publish = false

[dependencies]
fatfs = "=0.3.6"
bootloader = "=0.11.17"
x86_64 = { version = "=0.15.5", default-features = false, features = ["instructions"] }
pc-keyboard = "=0.9.0"
crossbeam-queue = "=0.3.14"
conquer-once = "=0.4.0"
futures-util = "=0.3.34"
spin = "=0.9.9"
uart_16550 = "=0.3.2"

[package]
name = "sillos"
version = "0.1.0"
edition = "2021"
publish = false

[dependencies]
limine = "=0.5.0"
x86_64 = { version = "=0.15.5", default-features = false, features = ["instructions"] }
spin = "=0.12.3"
uart_16550 = "=0.9.0"
pic8259 = "=0.11.0"
lazy_static = { version = "=1.5.1", features = ["spin_no_std"] }

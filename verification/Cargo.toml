[package]
name = "pogostick"
version = "0.1.0"
edition = "2021"
publish = false

[dependencies]
bit_field = "=0.10.3"
bootloader = { version = "=0.9.35", features = ["map_physical_memory"] }
hex = "=0.4.3"
lazy_static = "=1.5.1"
pc-keyboard = "=0.5.1"
pic8259 = { version = "=0.10.4", default-features = false }
spin = "=0.9.9"
volatile = "=0.2.7"
x86_64 = { version = "=0.14.13", default-features = false, features = ["instructions"] }

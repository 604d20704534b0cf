[package]
name = "mcregion"
version = "0.1.0"
edition = "2021"
publish = false

[dependencies]
flate2 = "*"

[dev-dependencies]
fastnbt = "*"

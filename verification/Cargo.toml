[package]
name = "recovery"
version = "0.1.0"
edition = "2021"
publish = false

[dependencies]
dusk-plonk = "=0.5.1"
dusk-bytes = "<0.1.8"
derive-hex = "<0.1.3"

[dev-dependencies]
rand = "=0.8.8"

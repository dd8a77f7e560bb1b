[package]
name = "port_killer"
version = "0.1.0"
edition = "2021"
publish = false

[dependencies]
clap = { version = "=4.6.7", features = ["derive"] }
comfy-table = "=7.2.2"
dialoguer = "=0.11.0"

[dev-dependencies]
regex = "1"

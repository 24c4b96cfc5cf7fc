[package]
name = "ccusage_adapters"
version = "0.1.0"
edition = "2021"
publish = false

[dependencies]
libc = "0.2"
same-file = "1"
serde = { version = "1", features = ["derive"] }
sqlite = "*"

[package]
name = "planetcore"
version = "0.1.0"
edition = "2021"
publish = false

[dependencies]
lru = "*"
ncollide3d = "*"
serde = { version = "*", features = ["derive"] }
serde_json = "*"
simdnoise = "*"
rand = "0.8"

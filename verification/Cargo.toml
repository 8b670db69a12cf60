[package]
name = "kaydle_primitives"
version = "0.1.0"
edition = "2021"
publish = false

[dependencies]
memchr = "=2.8.3"
arrayvec = "=0.7.8"
anyhow = "=1.0.104"
serde = "1"

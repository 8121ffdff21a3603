[package]
name = "crypto_writer"
version = "0.1.0"
edition = "2021"
publish = false

[dependencies]
num-format = "=0.4.4"
parking_lot = "=0.12.5"
rand_chacha = "=0.3.1"
rand_core = { version = "=0.6.4", features = ["getrandom"] }
ring = "=0.17.14"
secrecy = "=0.8.0"
tempfile = "=3.27.0"
tracing = "=0.1.44"

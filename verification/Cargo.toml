[package]
name = "photensor_sim"
version = "0.1.0"
edition = "2021"
publish = false

[dependencies]
oxiphoton = { version = "=0.1.2", features = ["io-gds"] }
num-complex = "=0.4.6"
thiserror = "=2.0.21"

[package]
name = "calc_bridge"
version = "0.1.0"
edition = "2021"
publish = false

[dependencies]
anyhow = "1"
embedded-svc = "0.28"
enumset = "1"
esp-idf-svc = "0.51"
futures = "0.3"
heapless = "0.8"

[package]
name = "osmflat-capi"
version = "0.1.0"
edition = "2021"
publish = false

[dependencies]
osmflat = "=0.3.1"

[dev-dependencies]
flatdata = "=0.5.8"

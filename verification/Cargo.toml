[package]
name = "tikv_service"
version = "0.1.0"
edition = "2021"
publish = false

[dependencies]
tokio = { version = "*", features = ["full"] }
tikv-client = "*"
pprof = { version = "*", features = ["flamegraph"] }

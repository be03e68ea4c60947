[package]
name = "cvrp_savings"
version = "0.1.0"
edition = "2021"
publish = false

[dependencies]
anyhow = "=1.0.104"

[dependencies.cudarc]
version = "=0.19.10"
default-features = false
features = ["std", "driver", "dynamic-loading", "cuda-12040"]

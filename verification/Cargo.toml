[package]
name = "zarrs_icechunk"
version = "0.1.0"
edition = "2021"
publish = false

[dependencies]
async-trait = "=0.1.92"
bytes = "=1.12.1"
futures = "=0.3.34"
icechunk = "=2.3.0"
tokio = { version = "=1.53.2", features = ["sync", "rt", "macros"] }
zarrs_storage = { version = "=0.4.5", features = ["async"] }

[package]
name = "johnnybt-polars"
version = "0.1.0"
edition = "2021"
publish = false

[dependencies]
arrow = { version = "=56.2.1", default-features = false, features = ["ipc"] }
chrono = "=0.4.45"
encoding_rs = "=0.8.44"
futures = "=0.3.34"
johnnybt_engine = { version = "=0.1.0", features = ["polars"] }
memchr = "=2.8.3"
numpy = "*"
polars = { version = "0.55", default-features = false, features = ["dtype-date", "dtype-struct", "ipc_streaming", "temporal"] }
pyo3 = { version = "*", features = ["abi3-py311"] }
pyo3-polars = { version = "0.28", features = ["derive"] }
rayon = "1"
serde = { version = "1", features = ["derive"] }
tokio = { version = "1", features = ["rt-multi-thread", "fs"] }

[package]
name = "pgfdb"
version = "0.1.0"
edition = "2021"
publish = false

[dependencies]
foundationdb = { version = "0.9", features = ["embedded-fdb-include", "fdb-7_3"] }
futures = "0.3"
pollster = "*"
rand = "*"

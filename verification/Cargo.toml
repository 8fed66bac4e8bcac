[package]
name = "dozer"
version = "0.1.0"
edition = "2021"
publish = false

[dependencies]
ahash = "0.8"
chrono = "0.4"
crossbeam = "0.8"
geo = "0.23"
itertools = "0.10"
ordered-float = "3"
postgres = "0.19"
postgres-types = "0.2"
prettytable-rs = "0.10"
rust_decimal = "1"
serde = { version = "1", features = ["derive"] }
tokio-postgres = "0.7"
unicode-segmentation = "1"

[package]
name = "embedding"
version = "0.1.0"
edition = "2021"
publish = false

[dependencies]
unicode-normalization = "0.1"
rand = "0.8"
ndarray = "0.16"
ndarray-rand = "0.15"
serde = { version = "1", features = ["derive"] }
serde_json = "1"
bincode = "1"
clap = { version = "4", features = ["derive"] }
half = "2"
prost = "0.13"
memmap2 = "0.9"
indicatif = "0.17"
tracing = "0.1"
tracing-subscriber = "0.3"

[package]
name = "fhe_processor"
version = "0.1.0"
edition = "2021"
publish = false

[dependencies]
tfhe = { version = "0.5", features = ["boolean", "shortint", "x86_64-unix"] }
aligned-vec = "0.5"
concrete-fft = "0.4"
dyn-stack = "0.9"
rayon = "1"
itertools = "0.12"
lazy_static = "1"
serde = { version = "1", features = ["derive"] }
num-traits = "0.2"

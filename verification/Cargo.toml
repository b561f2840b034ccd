[package]
name = "gpu-gates"
version = "0.1.0"
edition = "2021"
publish = false

[dependencies]
cuda-core = "=0.4.0"
libc = "=0.2.191"
memmap2 = "=0.9.12"
oxide-artifacts = { version = "=0.2.1", features = ["object-read", "object-write"] }

[package]
name = "pipnn"
version = "0.1.0"
edition = "2021"
publish = false

[dependencies]
bytemuck = "1"
half = "2"
memmap2 = "0.9"
parking_lot = "0.12"
rand = "0.9"
rayon = "1"
thiserror = "2"
tracing = "0.1"

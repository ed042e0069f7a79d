[package]
name = "wave_coherence"
version = "0.1.0"
edition = "2021"
publish = false

[dependencies]
rand = "=0.9.5"
candle-core = "=0.9.2"
candle-nn = "=0.9.2"

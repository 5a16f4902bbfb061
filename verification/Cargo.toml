[package]
name = "distributed_gol"
version = "0.1.0"
edition = "2021"
publish = false

[dependencies]
indexmap = "2"
tokio = { version = "1", features = ["full"] }
flume = "0.11"
anyhow = "1"
async-trait = "0.1"
sdl2 = "0.37"

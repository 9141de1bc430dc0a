[package]
name = "arbitrary_fixed"
version = "0.1.0"
edition = "2021"
publish = false

[dependencies]
bytemuck = { version = "=1.25.2", features = ["derive"] }
num-traits = "=0.2.19"
vulkano = "0.32"
vulkano-shaders = "0.32"
jack = "0.11"
resize-slice = "0.1"

[package]
name = "whirlaway"
version = "0.1.0"
edition = "2021"
publish = false

[dependencies]
p3-field = "=0.4.3"
p3-koala-bear = "=0.4.3"
p3-air = "=0.4.3"
p3-uni-stark = "=0.4.3"
p3-util = "=0.4.3"
tracing = "=0.1.44"
bytemuck = { version = "=1.25.2", features = ["derive"] }
pollster = "=0.4.0"
wgpu = "=24.0.5"
metal = "=0.31.0"

[dev-dependencies]
p3-matrix = "=0.4.3"
p3-poseidon2-air = "=0.4.3"
rand = "=0.9.5"

[package]
name = "primesieve_gpu"
version = "0.1.0"
edition = "2021"
publish = false

[dependencies]
bytemuck = { version = "1", features = ["extern_crate_alloc"] }
pollster = "0.3"
wgpu = "22"

[package]
name = "h3_hrx"
version = "0.1.0"
edition = "2021"
publish = false

[dependencies]
bytemuck = "=1.25.2"
half = "=2.7.1"
hf-hub = { version = "=1.0.0", features = ["blocking"] }
libc = "=0.2.191"
memmap2 = "=0.9.12"
rand = "=0.9.5"
rand_chacha = "=0.9.0"
rand_distr = "=0.5.1"
safetensors = "=0.8.0"
thiserror = "2"
tokenizers = { version = "=0.23.2", default-features = false, features = ["fancy-regex"] }

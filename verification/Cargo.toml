[package]
name = "nvparse_rs"
version = "0.1.0"
edition = "2021"
publish = false

[dependencies]
clap = { version = "4", features = ["derive"] }
futures = "0.3"
memmap = "0.7"
tqdm = "*"
wgpu = "23"

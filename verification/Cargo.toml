[package]
name = "decoder_kernels"
version = "0.1.0"
edition = "2021"

[dependencies]
furiosa-opt-std = "0.8.1"

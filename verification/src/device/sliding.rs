//! Kernels of a layer with sliding-window attention.

pub mod output;
pub mod qkv;

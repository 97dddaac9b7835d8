//! The kernels of one decoder layer.

pub mod ffn;
pub mod qkv;
pub mod sao;
pub mod shared;
pub mod sliding;

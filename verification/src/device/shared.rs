//! Kernels that several layer types share.

pub mod mlp;

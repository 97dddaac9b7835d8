//! What several kernels share.

pub mod hidden;

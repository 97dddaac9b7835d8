//! Kernels of a layer with sliding-window attention that meet in device memory.

pub mod output;

//! Decoder-layer kernels of a two-cluster tensor accelerator.
//!
//! The accelerator has two clusters of 256 slices. A slice has its own data memory and two register
//! files, and runs the same pass as every other slice on the rows that it holds; rows meet over the
//! switch and the rings of a cluster, and over device memory. The kernels of this crate are the
//! passes of one decoder layer: the norms around it, the query, key and value projections, the
//! attention output and the feed-forward block.
//!
//! * [`arithmetic`] names the number formats and the operations of the engines. A kernel is written
//!   against that trait, so its contract fixes the order of the operations and the place of every
//!   rounding and leaves the operations themselves to the implementation.
//! * [`tensor`] and [`row`] hold tensors spread over slices and the passes over one row; [`block`]
//!   holds the f8 lanes of an activation and the sixteen-element blocks of packed weights.
//! * [`shared`], [`device`] and [`sliding`] are the kernels.
//! * [`exact`] is the arithmetic of the reals, and [`laws`] says what the kernels compute in it.
//!
//! The hidden vector has 3840 elements, 32 chunks of 120. There are 16 query heads and 8 key and value
//! heads of 256 elements, 4096 and 2048 in all. The inner axis of the feed-forward block has 15360
//! elements. Matrices lie in device memory row after row, one block scale for every sixteen elements
//! of a packed row.

pub mod arithmetic;
pub mod block;
pub mod device;
pub mod exact;
pub mod laws;
pub mod row;
pub mod shared;
pub mod sliding;
pub mod tensor;

# decoder_kernels

The kernels of one decoder layer for an accelerator with two clusters of 256 slices, verified with
Verus: RMS norms, the query, key and value projections with per-head norms and rotary embedding, the
attention output, and the feed-forward block on packed four-bit weights.

* `src/` is the library. Every kernel is written against the trait `arithmetic::Arithmetic`, and its
  contract says, operation by operation and rounding by rounding, what lies where afterwards. The
  register-file operands of a kernel are staged through functions that require them to fit.
* `src/laws/` says what the kernels add up to over the real numbers: plain matrix-vector products,
  norms, rotary embeddings and the gated feed-forward formula, whatever the split over slices,
  clusters, lanes and blocks. It also says, with the roundings kept, what a factor, a sign or an
  exchange of operands does to a result.
* `tests/` runs the kernels at full size with single precision, bf16, f8 and f4 on the host.
* `app/` runs them on tensors in the accelerator's memory, with the number formats and engine
  operations of `furiosa_opt_std`.

# BebeLM

CPU-only inference for LFM2.5-8B-A1B (Q4_K_M), as a library whose behaviour is stated in
contracts and proved by Verus.

- `src/` is the verified library.
  - `scalar`, `fixed`, `algebra`: the numbers the kernels compute in. Every kernel is generic
    over `Scalar` and its contract says which operations are done, in which order. `Fixed` is
    the scalar that is proved; laws that need algebra ask for it.
  - `kernels`: matrix-vector products on quantized weights, attention, the short convolution,
    norms, rotary embedding, activations. `kernels::exact` shows that in a ring the fused
    products equal the products with the decoded weights; `kernels::rounding` bounds by how
    much they differ in scalars that round, and `kernels::small` shows what is exact in them
    on small integers.
  - `reader`, `gguf`, `tensor`: the weights file.
  - `config`: the model's constants, and the check of a file's metadata against them.
  - `model`: loading, the forward pass, the mixture of experts, generation, and
    `model::causal`, which shows that appending tokens changes nothing before them.
  - `sampler`, `select`: temperature, top-k and repetition penalty.
  - `cache`: decode-time state.
  - `cli`, `text`: what the command line and the chat ask for.
- `app/` is the program: files, arguments, the terminal, and single precision on SIMD lanes.
- `tests/` run the library, in single precision and in fixed point.

Running needs the Q4_K_M weights, `LFM2.5-8B-A1B-Q4_K_M.gguf`, in the current directory or at
`$BEBELM_WEIGHTS_FILE`. Prompts and replies are token ids: turning text into tokens is not part
of this project.

# ml_lib_rust

An embeddable autodiff and tensor runtime for on-device learning: ship a prior,
adapt it on local data under a budget, save it, predict with it.

The crate is in two parts.

- `src/` is the verified core, written in Verus. Tensors hold `f32` elements by
  their bit patterns, so everything here is integer and layout logic with
  contracts: tensor shapes and row copies, graph construction and program
  ordering (topological, exactly the vars the output depends on), the matmul
  and add kernel plans, the checkpoint byte format (encoding, decoding, and the
  round trip between them), IDX file parsing, the deterministic generator and
  Fisher–Yates shuffle, training budgets, the replay ring, minibatch assembly,
  and the optimizer's moment table.
- `app/` is the ordinary Rust around it: the float kernels (with rayon), the
  forward and backward passes, the optimizers' update rules, file I/O (with a
  memory-mapped MNIST reader via memmap2), and the `AdaptSession` loop that
  reads the clock.

`tests/` exercises the verified core on concrete values.

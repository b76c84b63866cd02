# rsllm

The parts of a language model runtime that decide and compute, verified with
Verus: reading model files, decoding quantized weights, the key/value cache, the
kernels, the sampler, and what the command line makes of its input.

## Numbers

A single-precision number is a `u32` with its bits. `float` defines what each
operation returns, rounded once, to nearest with ties to even, and proves the
code against that. Functions such as `exp` or `cos` are passed in as closures on
bits; a contract then speaks of every function that the closure computes.

## Layout

- `src/float`: arithmetic, comparison, sums, half precision, small formats,
  weights of scores, bounds on what rounding loses.
- `src/gguf`: the file format, its metadata and tensors, the fingerprint of a
  file, and in `dequant` one module per weight format.
- `src/kvcache`: the sliding window, the compressed pool, the indexer, and the
  three of them together.
- `src/cpu`: hardware tiers, the kernels, and how close these come to exact
  arithmetic.
- `src/ranking.rs`, `src/rng.rs`, `src/sampler.rs`: from logits to a token.
- `src/engine.rs`: what a model and a session of it offer.
- `src/cli`: commands, flags, reports and turns of a conversation, without
  their input and output.
- `app`: the program around the library: arguments, files, threads, the
  terminal.
- `tests`: the library on concrete values.

Public proof functions whose names begin with `law_` state what holds of several
functions together.

# llm_engine

A small Llama-style inference engine whose integer logic is verified with
Verus: the GGUF header format, byte-pair-encoding tokenization and its
inverse, the on-disk tensor layouts, the KV-cache and its memory footprint,
the head and batch layouts of attention, and the bookkeeping of
autoregressive and batched generation.

- `src/` is the verified library. Each public function carries a contract
  stated over mathematical models (`Seq`, `int`, views), and the laws that
  span several functions are public proof functions (`lemma_*`).
  A function that cannot succeed on every input requires the inputs it
  accepts; a `try_*` function beside it checks them and says what is wrong.
- `app/` is the program around it: reading the model file, the `f32`
  arithmetic of the transformer and of sampling, the HTTP server and the
  benchmark. It calls the library for every decision it does not compute in
  floating point.
- `tests/` runs the library on concrete values.

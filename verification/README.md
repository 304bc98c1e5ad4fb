# inference_bench

A benchmark that compares Rust inference engines (Candle, Burn, ONNX Runtime) on a
sentence-embedding workload, `all-MiniLM-L6-v2`. Its logic is verified with Verus.

- `src/` is the verified library: the rotation of engines over trials, sorting and percentiles,
  speedup ratios and their verdicts, which tokenizer definitions are admitted, tokenized batches
  as model input, the cells that mean pooling adds up, the parity gate, the records and summary
  lines. Its functions are proved against their contracts. The calls into the tokenizer, the
  JSON reader and the standard library are not: the contracts of their wrappers are trusted, and
  each says what it claims.
- `app/` is the program: model files from the hub, the models themselves, clocks, files and
  printing.
- `tests/` runs the library on concrete values.

Measurements are floating point numbers. The library holds them as bit patterns and compares
them as numbers; it takes arithmetic on them (interpolation, quotients, the forward pass) from
its caller, and its contracts say which operands it hands over and where the results go.

# a3s-apofasi

Typed System-1 decisions (`choice`, `score`, `noul`) for A3S hosts: question
schemas, sequence packing for the decision encoder, wide-choice grouping,
checkpoint routing, confidence buckets, gating and publishing.

## Layout

- `src/` — the library, written in Verus and checked by the verifier. The
  public functions state what they return in `requires` / `ensures`
  contracts over spec functions, and the laws of the library (packing
  layout, choice-group plans, published probability units, LRU residency,
  routing precedence) are public proof functions. Calls into `indexmap`,
  `tokenizers` and a few `std` functions go through small trusted wrappers;
  each says in its doc comment what its contract claims of the outside
  function, and those whose result depends on the disk or on a loaded model
  claim nothing of it.
- `tests/` — ordinary Rust tests of the library.
- `app/` — the command-line program around the library: file and network I/O,
  serde wire types, the Candle decision network, and the floating-point parts
  (softmax, temperatures, reward math, probability composition).

The ONNX Runtime (`ort`) encoder and the MLX decision backend are not
included: the first needs prebuilt runtime binaries fetched at build time, the
second an unsafe FFI to a native MLX library built outside Cargo. Only the
Candle backend runs the decision network.

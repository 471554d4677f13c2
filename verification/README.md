# enclavescale

Verified core of EnclaveScale, privacy-preserving power profiling for data centres:
local sanitisation enclaves (LSE) turn power telemetry into signed, noised Markov
transition matrices, and a global aggregation enclave (GAE) admits them under a
strict per-key batch counter before weighting them into per-hardware models.

- `src/` (Verus): hardware tables, discretisation of readings, transition counting,
  payload hashing, Ed25519 signing and verification (through `ed25519-dalek`,
  `sha2`, `hex`, `rand`), simulated quotes, and the GAE's replay-protected admission
  with its laws.
- `app/`: the program — networking, the Gaussian mechanism, the floating-point
  aggregation and peak-margin computation, and the JSON wire format.
- `tests/`: behaviour of the library on concrete inputs.

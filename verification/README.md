# lib

Safe wrappers around the intrinsics that a smart-contract runtime offers to a
WebAssembly contract (calls, account creation, logs, storage, block data).

- `src/` is verified with Verus: the fixed-size values exchanged with the host
  (`types`), big-endian numerals (`big_endian`) and the encodings and decisions
  around each intrinsic (`ext`): how gas, lengths and 256-bit values are handed to
  the host, and how its status codes and answers are read back.
- `app/` holds the `extern "C"` declarations of the intrinsics and the public
  wrappers that call them through the verified helpers.

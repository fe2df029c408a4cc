# pocket_voice

The logic of a desktop application's local speech, verified with Verus: importing reference
voices from WAV recordings, keeping their registry, and turning generated speech into
playback buffers.

- `src/` is the library. Samples are binary32 bit patterns (`u32`); their arithmetic is
  bit-exact and proved against "the nearest representable value, ties to even". The public
  proof functions whose names begin with `law_` state what holds of the library as a whole.
- `tests/` runs the library, among other things against native floating-point arithmetic.
- `app/` is ordinary Rust around it: files, the JSON registry, the time stretcher and the
  speed probe.

Two calls leave the verified code, both in `src/identity.rs`: `sha2::Sha256::digest`, whose
result is only named, and `hex::encode`, whose result is stated.

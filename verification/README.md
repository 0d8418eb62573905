# minimp3

The integer core of an MPEG audio (layer I, II and III) decoder, written in
Verus: every function in `src/` carries a contract that Verus proves.

- `src/hdr.rs` — the four-byte frame header: field access, validity,
  bitrate, sample rate, frame size and padding, and which headers may follow
  one another in a stream.
- `src/bitstream.rs` — a big-endian bit reader over a byte buffer, with a
  bit-level model of what each read returns.
- `src/l12.rs` — layers I and II: the subband allocation tables and the
  scale-factor side information.
- `src/layer3.rs` — layer III side information and the scale-factor reader.
- `src/scalefactors.rs` — layer III scale-factor widths and the integer
  exponents that the dequantizer applies.
- `src/sfb.rs` — the layer III scale-factor band tables.
- `src/utils.rs` — slice helpers.

`app/` holds the floating-point side (decoder state, power-of-two scaling of
the exponents, the layer I/II scale-factor values), which Verus does not check.

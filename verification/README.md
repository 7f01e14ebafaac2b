# cadence

A fixed-point decoder for SILK speech payloads and a reader of headerless PCM,
written in Verus: every function carries a contract and is proved against it.

- `range` reads symbols from a payload.
- `decode_indices`, `excitation`, `gains`, `pitch`, `nlsf` and `stereo` turn
  symbols into parameters.
- `synthesis` makes samples of them, `plc` fills in for lost frames, and
  `resampler` brings the samples to the output rate.
- `channel` and `frame` hold the state of one channel; `decoder`, `output` and
  `payload` put the channels together. `SilkDecoder::decode` is the entry.
- `outcome` shows when a call succeeds, `restart` that a decoder that
  was reset decodes as a new one, and `silence` that losses before the first
  frame are silent. `spelling` shows that a payload is decoded to the indices
  and pulses that its symbols spell, and `coding` that every spelling has a
  payload.
- `sigproc` holds the arithmetic and `tables` the constants.
- `pcm` interprets raw sample bytes; `fuzz` makes reproducible broken input for
  tests.

All arithmetic is on integers, free of overflow or with the wrapping and
saturation that the contracts state. Each `..._spec` function says what its
namesake computes; the views (`ChannelView`, `SilkView` and so on) are the
mathematical contents of the states.

`app/` holds a small program around the library: it reads files, converts
samples to `f32` and compares with FFmpeg.

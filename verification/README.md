# rff_codec_vp9

A VP9 bitstream library with proofs: reading and writing of headers, probabilities,
partitions, modes, motion vectors and segments, and the decisions of an encoder.

- `src/` holds the library. Every function states what it returns, and laws state what
  holds across functions: what is written is read back, a trial that is taken back leaves
  nothing behind, a search never ends on a worse vector than it began with.
- `src/decode/` reads frames. `tour` walks over tiles and blocks, `reconstructor` reads
  what a block says, `residual`, `plane` and `inter` say what is done with its samples.
- `src/encode/` writes frames and decides how. `search`, `decide`, `partition` and
  `trellis` decide; `block`, `header` and `compressed` write.
- `tests/` runs the library on values.
- `app/` holds what goes around it: the loops that call the work on samples, which is
  given by an implementation of `Kernels`, and what is reckoned in floating point.

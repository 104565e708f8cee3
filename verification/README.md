# praw

Reading and writing of praw streams, verified with Verus.

A praw file is the length of the header, the header and the packs. Every
integer is a 32-bit signed big-endian value. Each pack holds ten seconds of
audio.

- Header: version, sample rate, track count, one byte per track (`0` mono,
  `1` stereo), the number of packs, then the position of each pack in the
  file.
- Pack: the length of its body, then the body: one size per track, then for
  each track its packets, each preceded by its length.

Layout:

- `src/` the verified library: `bytes` (big-endian integers), `types`,
  `header`, `pack` (the format as specifications and the proofs about them),
  `reader`, `writer`, `navigation` (the decisions of reading a file pack by
  pack) and `laws` (what a reader gives back of what a writer wrote).
- `app/` file input and output around the library.
- `tests/` tests on concrete streams.

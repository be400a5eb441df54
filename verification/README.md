# oxideav-ogg

A demuxer for the Ogg container (RFC 3533), verified with Verus.

`src/` is the library. It works on a physical bitstream held in memory. Verus
proves the contracts of its functions, but for a few wrappers around std and
`oxideav-core` in `text` and `media`, which it trusts. The contracts speak of
`demux::Model`, the demuxer's state as mathematical values.

- `bytes`, `text`, `crc`, `page`: the building blocks of the format.
- `reassembly`: packets out of pages.
- `granule`, `theora`, `seek_index`: positions in time, and the index of pages.
- `codec_id`, `ident`, `private`, `comment`, `message`, `ogm`, `skeleton`: what
  packets say of streams.
- `demux`, `reader`, `register`, `process`, `session`: the demuxer, from bytes
  to packets.
- `scan`, `seek`, `resume`, `duration`, `info`: indexing, seeking, durations and
  queries.
- `laws`, `whole`, `tracks`, `journey`, `search`, `single`, `links`,
  `keyframes`: what holds across functions. An undamaged file is read back
  whole; nothing is spliced across damage; seeks are exact, with an index and
  without one, and keyframe seeks reach the keyframe; seeking about in an
  undamaged file is no damage; a single link is read as one, and indexing counts
  every chained link.

`app/` connects the library to `oxideav-core`: it reads inputs, asks the codec
registry, converts times to floating point, and implements the traits.

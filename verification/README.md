# numass

Tools for the numass detector data: the DataForge envelope in which points are
stored and sent, the decoding of recorded waveforms into events, and the logic of
the acquisition server, the viewers and the analysis scripts.

The library in `src/` is written in Verus. Its functions carry contracts that
Verus proves, except four small wrappers around `md5`, `hex`, `natord` and
`std::path::Path::file_name`, whose contracts are trusted as the doc comments above
them say.

- `dataforge` — the binary DataForge envelope: header layout, parsing and encoding
  of whole messages, with round-trip laws.
- `point` — frames, blocks and channels of a point; little-endian sample decoding.
- `events` — peak, baseline and window sums of a waveform; detector resets.
- `processing` — frames grouped into events by time, the dead-time filter and the
  merging of neighbouring channels.
- `acquisition`, `board`, `server` — building a point from board events, the
  register file of the simulated board, and the server's replies.
- `coincidence`, `viewer`, `converter` — stepping through events, crosses between
  channels, the data viewer's decisions and the raw export formats.
- `files`, `cache`, `analysis`, `numass` — the point directory tree in natural
  order, cache file names, selection of points by setpoint and dead-time
  statistics, and the plain protocol types.

`app/` holds what Verus does not check: asynchronous I/O with tokio, the serde
forms of the protocol types, floating-point amplitudes and histograms, and the
file-system side of the viewers. `tests/` runs the library on concrete values.

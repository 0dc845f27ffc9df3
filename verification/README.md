# mzk

The integer core of a small audio decoder, written in Verus: every
function under `src/` carries a contract over a mathematical model of the
bitstream it reads, and Verus proves the code against it.

## Layout

- `src/opus/` — Ogg page reading and Opus stream reassembly (`ogg`), the
  TOC byte and frame splitting (`toc`), the range decoder (`range`) and the
  integer side of CELT (`celt/`): the frame header up to the band shapes
  (`frame`: flags and post-filter, coarse energy symbols, time-frequency
  flags, spread, band boosts, trim, anti-collapse reserve and the bit
  allocation), the pulse cache, PVQ codebook sizes and pulse decoding, the
  split angle of a band with its bit sharing and pulse levels (`theta`),
  per-band budgets, one-sample signs and fold sources (`band_steps`), the
  recursive split of a band down to its PVQ leaves (`partition`), a whole
  band with its time-frequency change and a stereo band (`band_decode`),
  the loop over all bands of a frame (`band_shapes`), the fine, anti-collapse
  and final energy bits (`fine`), and the fixed-point helpers they use.
- `src/mp3/` — frame headers and sync search, side information, scale
  factors, Huffman decoding of the spectral values, the main data of all
  granules of a frame (`granule`), the bit reservoir, and one step of the
  frame loop: sync by the previous header or resync, CRC, side information
  and the reservoir gate (`frame`).
- `src/flac/` — bit reader, frame headers, subframes, residuals and the
  inverse prediction.
- `src/m4a/` — MP4 box demuxing, the ALAC packet decoder and the cursor over
  the packets of a file.
- `src/wav.rs` — RIFF/WAVE chunk parsing and sample conversion.
- `src/engine.rs`, `src/player.rs`, `src/repl_fmt.rs` — the playlist
  cursor and orders, the player as a state machine from command or event to
  state and action, and the text shown to the user.
- `tests/` — ordinary Rust tests run against the compiled library.

Floating-point work (synthesis, IMDCT, dequantisation gains) and I/O stay
outside the library. Constant tables that a decoder ships with (CELT modes,
MP3 Huffman and scale-factor tables) are passed in as data, so the proofs
hold for whatever tables the caller supplies within the stated shape.

## Laws

Besides each function's contract, `src/` states and proves properties that
span several calls, for example:

- the range decoder's count of consumed bits never decreases, raw bits
  count one for one, its error flag is sticky, `decode_bin(b)` is
  `decode(2^b)` and a `2^-logp` bit is the inverse CDF `[1, 0]`;
- the frames of a packet that splits are laid end to end and as many as the
  TOC announces;
- ALAC decoding depends on five configuration fields only, and a packet
  without the partial-frame bit holds a whole frame;
- pseudo-pulse levels map to strictly growing pulse counts, and the pulse
  cache gives bands of one size one entry and bands of different sizes
  different entries;
- a band with no time-frequency change reads exactly as its partition;
- the player stays well-formed under every event, Next and Prev undo each
  other, pausing twice changes nothing, shuffling keeps the current track
  and playing a track opens it.

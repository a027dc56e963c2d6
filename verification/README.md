# creek-decode-symphonia

Decodes audio files into blocks of frames for a read stream, with the `symphonia` crate.

- `src/` is the library. It holds what a decoder decides: the opening of a track, which frames of
  which packets are handed out, seeking, and the read position. It is verified with Verus.
  `src/state.rs` is the mathematical model that the contracts speak of, and `src/laws.rs` states what
  holds over whole calls.
- `app/` reads and decodes packets with `symphonia` and offers the decoder on any source that can be
  read and seeked.
- `tests/` plays whole files through `symphonia` and the library, and runs the library on packets
  made by hand.

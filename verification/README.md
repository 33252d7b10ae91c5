# tamcodec

Decodes Fritz!Box telephone answering machine (TAM) recordings into WAV.

- `src/` is the verified library: the container parser (`container`), the
  decode pipeline that turns frames and decoder output into a PCM stream
  (`decode`), G.722 decoding through `audio_codec` (`g722`), the framing of
  raw Speex streams (`speex`), and the crate root with `Codec`,
  `DecodeResult` and the command-line codec choice.
- `app/` is the command-line program: file I/O, WAV writing with `hound`,
  the Speex decoder over the `speex-sys` FFI bindings, and stderr capture.
- `tests/` holds the tests of the library.

# radio_replay

The verified core of a server that records live mp3 radio channels, cuts
them into non-silent messages and serves them to listeners.

- `src/silence_gate.rs`: the silence detector, a window over the power of
  the last 8000 samples, open while their mean exceeds 10^12.
- `src/audio_store.rs`: message ids and metadata, and `MessageSplitter`, which
  decides for each chunk of 10 000 samples whether to start, extend or finish
  a message.
- `src/audio_stream.rs`: `LiveReader`, the step-by-step state of a reader that
  copies chunks of a live message into read buffers.
- `src/recent_cache.rs`: `RecentLog`, the state of a cache that keeps the most
  recent messages and decides what each listener is handed: the recent
  messages when it joins, then every later one.
- `src/audio_service.rs`: converting decoded mp3 samples to 32-bit samples.
- `src/encoder.rs`: the decisions around each call of the mp3 encoding
  library: the first buffer size, and from each answer the bytes to write or
  the next, doubled, buffer size.

`app/` holds the server around it: HTTP, threads, channels, files, and the
calls of the LAME library.

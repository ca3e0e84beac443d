# mpv-stt-server

A UDP server that turns speech into subtitles. Clients send Opus audio in chunks; the server puts
the chunks together, hands the recording to Whisper workers, and sends the SRT transcript back in
datagrams. Messages are postcard-encoded and can be encrypted; requests can be made to carry a
token.

- `src/` is the library, verified with Verus: the wire format (`wire`, `protocol`), the reassembly
  of audio (`assembly`), Opus framing and the WAV file (`opus`, `wav`), the cutting of transcripts
  (`chunks`), the queue of jobs (`jobs`), the server's state and decisions (`server`), and what
  holds over many events (`laws`).
- `app/` is the program around it: command line, socket, clock, cipher, libopus and worker threads.
- `tests/` runs the library with the real postcard and hound.

The library trusts what it says of `postcard::to_allocvec`, `postcard::take_from_bytes` and
`hound::WavWriter`; each such claim stands above the function that makes the call.

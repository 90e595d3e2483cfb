# lz4_frame

A decoder for the LZ4 frame format, verified with Verus.

`src/` is the library. It performs no input or output: the decoder says which
bytes of the stream it needs, is handed them, and hands decompressed bytes back.

- `block`: the block format, its errors, and the decompression of one block
- `frame::header`: the headers of frames and blocks
- `frame::format`: the content of a stream of bytes, as the frame format has it
- `frame::model`: the decoder as a function from state and bytes to state and
  action
- `frame::decompress`: the decoder, proved to do what the model says
- `frame::laws`, `frame::session`: what holds of every decoder; in particular,
  that a caller gets the content of a frame, all of it and nothing else,
  whatever the sizes of its buffers and however the stream is cut up
- `frame::stream`: the same of several frames that follow one another
- `hash`: the 32-bit xxHash of the crate `twox_hash`, the one part that is
  trusted and not proved
- `bytes`, `text`: little-endian integers and decimal numbers

`app/` puts the decoder behind `std::io::Read`.

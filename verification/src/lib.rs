//! A decoder for the LZ4 frame format whose behaviour is stated in contracts
//! and proved.
//!
//! The library performs no input or output. [`frame::decompress::FrameDecoder`] is a state
//! machine: it says how many bytes of the stream it needs next, is handed those
//! bytes, and hands decompressed bytes back.

pub mod block;
pub mod bytes;
pub mod frame;
pub mod hash;
pub mod text;

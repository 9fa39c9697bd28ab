//! Incremental decoding of an HTTP chunked-transfer-encoded body.
//!
//! A [`ChunkedBytes`] pulls raw bytes from a [`ByteStream`] and hands out, one request
//! at a time, exactly the payload bytes of each chunk. The stream may be fed one element
//! at a time while decoding goes on: the decoder asks for more only when a request needs
//! an element not received yet, and nothing that has been consumed is kept. Size lines, chunk extensions and
//! delimiters are consumed and dropped. Decoding stops at the zero-size chunk, leaving
//! the stream positioned just after that chunk's size line, so trailer fields can still
//! be read from it.
pub mod stream;
pub mod wire;
pub mod decoder;
pub mod laws;

pub use stream::{ByteStream, TransportError};
pub use wire::{ChunkError, Phase};
pub use decoder::{ChunkedBytes, Pull};

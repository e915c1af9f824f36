//! A reversible cipher for `chara.par` archives: the byte stream is cut into
//! eight-byte words, each word is combined with the next word of a fixed
//! 64-word keystream and rotated by an amount that follows its position in
//! the stream, and a trailing partial word is zero-padded, never dropped.
//!
//! - [`array_chunks_pad`] cuts a lazy sequence into fixed-size arrays and
//!   pads the last one.
//! - [`word`] reads and writes little-endian words and transforms one word.
//! - [`key`] holds the key table and its keystream.
//! - [`stream`] runs the cipher over a whole stream of bytes.

pub mod array_chunks_pad;
pub mod key;
pub mod stream;
pub mod word;

pub use array_chunks_pad::{ArrayChunksPad, ArrayChunksPadExtension};
pub use key::KeyTable;
pub use stream::{decrypt, encrypt, Mode, Pipeline};

//! A bit-packed binary codec.
//!
//! Raw bytes are split into fixed-width bit chunks, a binary symbol tree is
//! synthesized from the chunk frequencies, and the tree together with the
//! per-chunk codes is serialized into one bit sequence.  Decoding replays the
//! bit sequence: it rebuilds the tree from the stream and walks it to recover
//! the original chunks.

pub mod bits;
pub mod decode;
pub mod encode;
pub mod freq;
pub mod laws;
pub mod synth;
pub mod table;
pub mod tree;

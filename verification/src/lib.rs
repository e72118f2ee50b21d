//! Block-structured Huffman compressor library.
//!
//! The codec produces a reproducible encoding: frequency analysis returns a
//! canonically ordered table, tree construction breaks ties by serial number,
//! and the dictionary and bit packer are deterministic, so independent
//! decoders reconstruct identical trees from the transmitted table.

pub mod bits;
pub mod block;
pub mod dict;
pub mod freq;
pub mod heap;
pub mod pipeline;
pub mod stream;
pub mod tree;
pub mod wire;

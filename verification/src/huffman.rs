//! Huffman coding of text: code construction, bit packing and the binary
//! container that carries a compressed message together with its code table.
pub mod bits;
pub mod codec;
pub mod codes;
pub mod container;
pub mod error;
pub mod laws;
pub mod order;
pub mod table;
pub mod tree;

pub use bits::{bitstring_from_bytes, compress};
pub use codec::{bitstring_to_text, to_bitstring};
pub use container::{decode, decode_with, encode, encode_with, read_encoded, write_encoded};
pub use error::Error;
pub use table::{HuffmanTable, InvertedTable};
pub use tree::Node;

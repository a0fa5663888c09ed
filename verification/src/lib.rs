//! Text tools with machine-checked contracts: a Huffman file codec, a
//! tokenizer and syntax check for JSON, counting of lines and words, and
//! cutting of columns.
pub mod count;
pub mod cut;
pub mod huffman;
pub mod json;
pub mod text;

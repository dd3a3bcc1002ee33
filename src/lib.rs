//! A DEFLATE (RFC 1951) encoder producing dynamic-Huffman blocks, with the
//! gzip (RFC 1952) framing around it.

pub mod alphabet_encoder;
pub mod args;
pub mod bits;
pub mod code_length_symbol;
pub mod code_length_table;
pub mod crc;
pub mod deflate;
pub mod dynamic_huffman;
pub mod gzip;
pub mod inflate;
pub mod locator;
pub mod symbol;
pub mod symbolize;
pub mod symbolize_code_length;

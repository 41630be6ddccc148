//! Probability-model core for entropy coders.
//!
//! Turns probability distributions over integer symbols into exact fixed-point
//! cumulative tables (for arithmetic / ANS coders) and probability weights into
//! canonical Huffman codeword trees (for symbol coders). All cumulative
//! arithmetic is carried out in a 32-bit word whose wrap-around at
//! `2^32` encodes the full probability mass.

pub mod distributions;
pub mod quantizer;
pub mod weights;
pub mod categorical;
pub mod huffman;

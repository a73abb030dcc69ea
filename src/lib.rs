//! Small text tools: a homoglyph steganography codec, a Vigenère cipher
//! and a word-folding file checksum.

pub mod checksum;
pub mod stego;
pub mod vigenere;

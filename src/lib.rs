//! Reversible text transformations for puzzle-style ciphers: a digit obfuscation cipher with
//! a search that recovers its plaintexts, a grid-rotation cipher, shift ciphers, a
//! polyalphabetic substitution, a block-cipher decoder and a compression codec.

pub mod cipher;
pub mod codec;
pub mod combinatorics;
pub mod decimal;
pub mod grid;
pub mod order;
pub mod search;
pub mod shift;
pub mod text;
pub mod vigenere;

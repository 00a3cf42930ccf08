//! A Vigenère cipher over a fixed alphabet of printable Latin-1 characters.
//!
//! The alphabet (`dictionary`) fixes an index for every character it holds;
//! the substitution table (`matrix`) is built from it by rotating each row
//! one place further than the row before; the cipher engine (`cipher`)
//! stretches a key to the length of a message and looks each pair of
//! characters up in the table, in one direction to encode and in the other
//! to decode.
pub mod text;
pub mod dictionary;
pub mod matrix;
pub mod cipher;

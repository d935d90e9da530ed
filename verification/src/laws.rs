//! What the library promises, said of the results of its operations and of nothing else.
//!
//! The statements speak of sequences, maps, multisets and numbers; where they need a
//! relation of their own, it is declared beside them.
pub mod collections;
pub mod data;
pub mod decoding;
pub mod encoding;
pub mod infer;
pub mod learning;
pub mod running;
pub mod sampling;
pub mod text;

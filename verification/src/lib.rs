//! A byte-pair tokenizer and the bookkeeping of a small language model around it.
pub mod agenda;
pub mod cli;
pub mod data;
pub mod frequency;
pub mod infer;
pub mod laws;
pub mod learning;
pub mod lexicon;
pub mod merging;
pub mod model;
pub mod pairs;
pub mod sampling;
pub mod text;
pub mod tokenizer;
pub mod training;
pub mod vocabulary;

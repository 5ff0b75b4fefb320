//! Building blocks of a small character-level neural language model.

pub mod dataset;
pub mod engine;
pub mod sampler;
pub mod text;
pub mod tokenizer;

//! Text normalisation, tokenization and fact extraction for a small
//! continually-learning question answering system.
pub mod text;
pub mod tokenizer;
pub mod teach;
pub mod cli;
pub mod decoder;

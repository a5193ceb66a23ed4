//! Word-level vocabulary building and tokenization for Unicode text.
//!
//! A [`tokenizer::Tokenizer`] learns a mapping from normalized word tokens to
//! dense integer ids, prunes rare tokens, and turns text into id sequences.

pub mod listing;
pub mod model;
pub mod normalization;
pub mod pipeline;
pub mod possessive;
pub mod segmenter;
pub mod stemmer;
pub mod stopwords;
pub mod tokenizer;
pub mod views;
pub mod vocabulary;

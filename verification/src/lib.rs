//! A byte-level byte-pair-encoding (BPE) tokenizer library.
//!
//! Raw text is turned into a sequence of token ids: ids below 256 stand for
//! single bytes, higher ids for learned merges of adjacent token pairs.
//! Training learns merge rules greedily from pair frequencies; encoding
//! replays them in learned order; decoding expands ids back to bytes.

pub mod basic;
pub mod gpt4;
pub mod regex;
pub mod utils;

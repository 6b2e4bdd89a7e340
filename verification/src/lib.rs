//! A small CSS tokenizer.
//!
//! The tokenizer consumes a complete source text, held as a sequence of
//! Unicode scalar values, and produces one token per call to
//! [`tokenizer::Tokenizer::next`], ending with an idempotent end-of-input
//! token. Malformed constructs (an unterminated string, a malformed url)
//! become `BadString` / `BadUrl` tokens rather than failures, so every call
//! after construction succeeds and tokenization always reaches the end of
//! the input.

pub mod chars;
pub mod scan;
pub mod token;
pub mod tokenizer;

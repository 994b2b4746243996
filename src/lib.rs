//! A search engine for an 8x8 flank-capture board game: a packed board with
//! move generation and a textual notation, a static evaluator, a position
//! fingerprint, a two-slot transposition cache and an alpha-beta searcher.

mod errors;
pub mod tile;
pub mod board;
pub mod notation;
pub mod eval;
pub mod hasher;
pub mod cache;
pub mod profile;
pub mod time;
pub mod agent;

pub use errors::{ParseError, ParseResult};

//! Real-time keyword detection over a character stream.
//!
//! A `StreamAlerter` keeps the most recent characters of a stream in a
//! power-of-two `RingBuffer` and matches them, newest first, against a
//! `Trie` of keywords stored in reverse.

pub mod alerter;
pub mod ring;
pub mod trie;

pub use alerter::StreamAlerter;
pub use ring::{BackwardCursor, RingBuffer};
pub use trie::Trie;

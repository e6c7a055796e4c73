//! A dictionary-driven word tokenizer for scripts that do not separate words
//! by spaces, designed with Thai in mind.
//!
//! - [`dict`] holds the dictionary, a sorted and compressed prefix trie.
//! - [`th`] segments text with it: fewest unknown bytes first, fewest tokens
//!   second.
//! - [`en`] splits text at its whitespace.
pub mod dict;
pub mod en;
pub mod th;
pub mod tokenizer;

pub use self::tokenizer::Tokenizer;

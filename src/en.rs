//! A tokenizer for scripts that separate words by spaces.
use vstd::prelude::*;
use crate::tokenizer::split_whitespace;
use crate::tokenizer::whitespace_chunks;
use crate::tokenizer::without_white_space;

verus! {

/// Splits a text at its whitespace.
pub struct Tokenizer;

impl crate::tokenizer::Tokenizer for Tokenizer {
    /// The pieces of `text` between runs of whitespace.
    fn tokenize<'a>(&self, text: &'a str) -> (r: Vec<&'a str>)
        ensures
            r@.len() == whitespace_chunks(text@).len(),
            forall|i: int| 0 <= i < r@.len() ==> #[trigger] r@[i]@ == whitespace_chunks(text@)[i],
            forall|i: int| 0 <= i < r@.len() ==> #[trigger] r@[i]@.len() > 0,
            r@.map_values(|x: &str| x@).flatten() == without_white_space(text@),
    {
        split_whitespace(text)
    }
}

} // verus!

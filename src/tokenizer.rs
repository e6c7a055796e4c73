//! The interface that every tokenizer offers, and the split of a text at its
//! whitespace that tokenizers start from.
use vstd::prelude::*;

verus! {

/// The pieces of `s` that runs of whitespace separate, in order, as
/// `str::split_whitespace` yields them.
pub uninterp spec fn whitespace_chunks(s: Seq<char>) -> Seq<Seq<char>>;

/// Unicode's `White_Space` property, by which `str::split_whitespace` splits.
pub open spec fn is_white_space(c: char) -> bool {
    let v = c as u32;
    ||| 0x09 <= v <= 0x0d
    ||| v == 0x20
    ||| v == 0x85
    ||| v == 0xa0
    ||| v == 0x1680
    ||| 0x2000 <= v <= 0x200a
    ||| v == 0x2028
    ||| v == 0x2029
    ||| v == 0x202f
    ||| v == 0x205f
    ||| v == 0x3000
}

/// `s` without its whitespace.
pub open spec fn without_white_space(s: Seq<char>) -> Seq<char> {
    s.filter(|c: char| !is_white_space(c))
}

/// Relies on `str::split_whitespace`: the sub-slices of `s` between runs of
/// Unicode whitespace, in order. Each is non-empty and holds no whitespace,
/// and together they are `s` without its whitespace.
#[verifier::external_body]
pub(crate) fn split_whitespace<'a>(s: &'a str) -> (r: Vec<&'a str>)
    ensures
        r@.len() == whitespace_chunks(s@).len(),
        forall|i: int| 0 <= i < r@.len() ==> #[trigger] r@[i]@ == whitespace_chunks(s@)[i],
        forall|i: int|
            0 <= i < r@.len() ==> #[trigger] r@[i]@.len() > 0 && forall|k: int|
                0 <= k < r@[i]@.len() ==> !is_white_space(r@[i]@[k]),
        r@.map_values(|c: &str| c@).flatten() == without_white_space(s@),
{
    s.split_whitespace().collect()
}

/// A tokenizer splits a text into tokens, each a sub-slice of the text.
pub trait Tokenizer {
    fn tokenize<'a>(&self, text: &'a str) -> Vec<&'a str>;
}

} // verus!

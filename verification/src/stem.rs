//! English stemming of word tokens (the Snowball English algorithm).
use vstd::prelude::*;

verus! {

/// The stem that the Snowball English (Porter2) algorithm gives the word `w`.
pub uninterp spec fn english_stem(w: Seq<char>) -> Seq<char>;

/// Trusted: runs `rust_stemmers::Stemmer::stem` with the English algorithm
/// (`Stemmer::create(Algorithm::English)`), which builds a Snowball
/// environment on `word`, runs the English stemmer on it and returns the
/// environment's current string.  The contract claims only that the result is
/// a function of `word` alone, named `english_stem`; nothing is said of what
/// the algorithm does to a word.
#[verifier::external_body]
pub(crate) fn stem_english(word: &str) -> (r: String)
    ensures
        r@ == english_stem(word@),
{
    rust_stemmers::Stemmer::create(rust_stemmers::Algorithm::English).stem(word).into_owned()
}

} // verus!

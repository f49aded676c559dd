use vstd::prelude::*;
use crate::config::StemAlgorithm;

verus! {

/// A stable tag for each stemming language, so that the stem of a word can be
/// spoken of as a function of plain values.
pub open spec fn spec_lang_id(a: StemAlgorithm) -> int {
    match a {
        StemAlgorithm::English => 0,
        StemAlgorithm::German => 1,
        StemAlgorithm::French => 2,
        StemAlgorithm::Spanish => 3,
    }
}

/// The Snowball stem of a word under the language with the given tag. The
/// stemmer is a pure function of the language and the word, so its result
/// carries a name rather than a page-long definition.
pub uninterp spec fn stem_of(lang: int, word: Seq<char>) -> Seq<char>;

/// Relies on `rust_stemmers::Stemmer::stem`: the Snowball stem of a word,
/// which depends on the chosen algorithm and the word alone.
#[verifier::external_body]
pub(crate) fn stem_word(algo: StemAlgorithm, word: &str) -> (r: String)
    ensures
        r@ == stem_of(spec_lang_id(algo), word@),
{
    let a = match algo {
        StemAlgorithm::English => rust_stemmers::Algorithm::English,
        StemAlgorithm::German => rust_stemmers::Algorithm::German,
        StemAlgorithm::French => rust_stemmers::Algorithm::French,
        StemAlgorithm::Spanish => rust_stemmers::Algorithm::Spanish,
    };
    rust_stemmers::Stemmer::create(a).stem(word).into_owned()
}

} // verus!

//! The tokenizer under evaluation: dictionary-based maximal matching.

use crate::dictionary::texts;
use crate::span::total;
use tokenizer::th::Tokenizer;
use vstd::prelude::*;
use vstd::string::StringSliceAdditionalSpecFns;

verus! {

/// `tokenizer::th::Tokenizer`, the dictionary-based tokenizer. Of a value
/// only the words it was built from are spoken of.
#[verifier::external_type_specification]
#[verifier::external_body]
pub struct ExTokenizer(Tokenizer);

/// The words that a tokenizer was built from, in the order given.
pub uninterp spec fn vocabulary(tokenizer: Tokenizer) -> Seq<Seq<char>>;

/// The byte lengths of the tokens, from left to right, into which a
/// tokenizer that knows the words of `vocabulary` cuts `text`.
pub uninterp spec fn token_lengths(vocabulary: Seq<Seq<char>>, text: Seq<char>) -> Seq<usize>;

/// Builds a tokenizer that knows the given words, by
/// `tokenizer::th::Tokenizer::from` on the slice of the vector. Nothing is
/// claimed but which words the tokenizer was given.
#[verifier::external_body]
pub(crate) fn build(words: &Vec<String>) -> (tokenizer: Tokenizer)
    ensures
        vocabulary(tokenizer) == texts(words@),
{
    Tokenizer::from(words.as_slice())
}

/// Cuts `text` into tokens by `tokenizer::Tokenizer::tokenize` and hands out
/// the byte length of each token in place of the token.
///
/// The outcome is taken to depend on the known words and the text alone. The
/// tokens are slices of `text` that do not overlap: the call cuts the text at
/// whitespace and lays the tokens of each piece end to end from the piece's
/// first byte to its last, so together they are no longer than the text. An
/// empty word among the known ones can make the call fail, hence the
/// precondition.
#[verifier::external_body]
pub(crate) fn tokenize(tokenizer: &Tokenizer, text: &str) -> (lengths: Vec<usize>)
    requires
        forall|i: int|
            0 <= i < vocabulary(*tokenizer).len() ==> (#[trigger] vocabulary(*tokenizer)[i]).len()
                > 0,
    ensures
        lengths@ == token_lengths(vocabulary(*tokenizer), text@),
        total(lengths@) <= text.spec_bytes().len(),
{
    tokenizer::Tokenizer::tokenize(tokenizer, text).iter().map(|token| token.len()).collect()
}

} // verus!

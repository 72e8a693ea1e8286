//! The test material of a trial: a text made of all dictionary words in a
//! random order, with the byte range of every word in it.

use crate::dictionary::concat;
use crate::dictionary::is_separator;
use crate::dictionary::is_vocabulary;
use crate::dictionary::is_word;
use crate::dictionary::texts;
use crate::dictionary::Dictionary;
use crate::shuffle::shuffle;
use crate::span::is_tiling;
use crate::span::Span;
use rand::rngs::ThreadRng;
use vstd::prelude::*;
use vstd::string::StringExecFns;
use vstd::utf8::encode_scalar;
use vstd::utf8::encode_utf8;

verus! {

/// The number of bytes that the text takes in UTF-8.
pub open spec fn byte_len(text: Seq<char>) -> nat {
    encode_utf8(text).len()
}

/// The spans are the byte ranges that the words take in their concatenation:
/// span `i` starts after the bytes of the words before word `i` and is as long
/// as word `i`.
pub open spec fn is_ground_truth(spans: Seq<Span>, words: Seq<Seq<char>>) -> bool {
    &&& spans.len() == words.len()
    &&& forall|i: int|
        0 <= i < spans.len() ==> (#[trigger] spans[i]).start == byte_len(concat(words.take(i)))
            && spans[i].len == byte_len(words[i])
}

/// The bytes of a text made of two parts are those of the parts.
pub proof fn lemma_byte_len_additive(a: Seq<char>, b: Seq<char>)
    ensures
        byte_len(a + b) == byte_len(a) + byte_len(b),
    decreases a.len(),
{
    if a.len() == 0 {
        assert(a + b =~= b);
    } else {
        assert((a + b).drop_first() =~= a.drop_first() + b);
        lemma_byte_len_additive(a.drop_first(), b);
    }
}

/// A text that is not empty takes at least one byte.
pub proof fn lemma_byte_len_positive(text: Seq<char>)
    requires
        text.len() > 0,
    ensures
        byte_len(text) > 0,
{
    assert(encode_scalar(text[0] as u32).len() > 0);
}

/// One word more adds its bytes to the concatenation.
pub proof fn lemma_concat_step(words: Seq<Seq<char>>, i: int)
    requires
        0 <= i < words.len(),
    ensures
        concat(words.take(i + 1)) == concat(words.take(i)) + words[i],
        byte_len(concat(words.take(i + 1))) == byte_len(concat(words.take(i))) + byte_len(words[i]),
{
    assert(words.take(i + 1).drop_last() =~= words.take(i));
    lemma_byte_len_additive(concat(words.take(i)), words[i]);
}

/// The ground truth tiles the text: the first span starts at offset 0, each
/// span ends where the next starts, and the last ends with the text. Where no
/// word is empty no span is, and the offsets increase strictly.
pub proof fn lemma_ground_truth_tiles(spans: Seq<Span>, words: Seq<Seq<char>>)
    requires
        is_ground_truth(spans, words),
    ensures
        is_tiling(spans, byte_len(concat(words)) as int),
        (forall|i: int| 0 <= i < words.len() ==> (#[trigger] words[i]).len() > 0) ==> (forall|
            i: int,
        | 0 <= i < spans.len() ==> (#[trigger] spans[i]).len > 0),
        (forall|i: int| 0 <= i < words.len() ==> (#[trigger] words[i]).len() > 0) ==> (forall|
            i: int,
            j: int,
        | 0 <= i < j < spans.len() ==> (#[trigger] spans[i]).start < (#[trigger] spans[j]).start),
{
    let extent = byte_len(concat(words)) as int;
    assert(words.take(0) =~= Seq::<Seq<char>>::empty());
    assert(words.take(words.len() as int) =~= words);
    assert forall|i: int| 0 <= i < spans.len() implies (#[trigger] spans[i]).end() == byte_len(
        concat(words.take(i + 1)),
    ) by {
        lemma_concat_step(words, i);
    }
    assert forall|i: int| 0 < i < spans.len() implies spans[i - 1].end() == (
    #[trigger] spans[i]).start by {
        assert(spans[i - 1].end() == byte_len(concat(words.take(i))));
    }
    if spans.len() > 0 {
        assert(spans.last().end() == byte_len(concat(words.take(spans.len() as int))));
    }
    if forall|i: int| 0 <= i < words.len() ==> (#[trigger] words[i]).len() > 0 {
        assert forall|i: int| 0 <= i < spans.len() implies (#[trigger] spans[i]).len > 0 by {
            lemma_byte_len_positive(words[i]);
        }
        assert forall|i: int, j: int| 0 <= i < j < spans.len() implies (#[trigger] spans[i]).start
            < (#[trigger] spans[j]).start by {
            crate::span::lemma_tiling_starts_increase(spans, extent, i, j);
        }
    }
}

/// Words written one after another hold no separator: a tokenizer that cuts
/// at whitespace first finds the text of a corpus in one piece.
pub proof fn lemma_concat_is_unbroken(words: Seq<Seq<char>>)
    requires
        forall|i: int| 0 <= i < words.len() ==> is_word(#[trigger] words[i]),
    ensures
        forall|k: int| 0 <= k < concat(words).len() ==> !is_separator(#[trigger] concat(words)[k]),
    decreases words.len(),
{
    if words.len() > 0 {
        let before = words.drop_last();
        let last = words.last();
        lemma_concat_is_unbroken(before);
        assert(is_word(words[words.len() - 1]));
        assert forall|k: int| 0 <= k < concat(words).len() implies !is_separator(
            #[trigger] concat(words)[k],
        ) by {
            if k < concat(before).len() {
                assert(concat(words)[k] == concat(before)[k]);
            } else {
                assert(concat(words)[k] == last[k - concat(before).len()]);
            }
        }
    }
}

/// A text with the byte range of each of the words it was made of.
pub struct Corpus {
    text: String,
    words: Dictionary,
    spans: Vec<Span>,
}

impl Corpus {
    /// The text.
    pub closed spec fn text(&self) -> Seq<char> {
        self.text@
    }

    /// The words that make up the text, in their order in it.
    pub closed spec fn words(&self) -> Seq<Seq<char>> {
        self.words@
    }

    /// The byte range of every word, in the order of the words.
    pub closed spec fn spans(&self) -> Seq<Span> {
        self.spans@
    }

    /// The words are distinct words, the text is their concatenation and no
    /// longer than an offset can tell, and the spans are the byte ranges of
    /// the words in it.
    pub open spec fn wf(&self) -> bool {
        &&& is_vocabulary(self.words())
        &&& self.text() == concat(self.words())
        &&& byte_len(self.text()) <= usize::MAX
        &&& is_ground_truth(self.spans(), self.words())
    }

    /// Concatenates the words of the dictionary, in the order in which it
    /// holds them and with nothing between them, and records the byte range
    /// of each.
    pub fn build(words: Dictionary) -> (corpus: Self)
        requires
            words.wf(),
        ensures
            corpus.wf(),
            corpus.words() == words@,
            is_tiling(corpus.spans(), byte_len(corpus.text()) as int),
    {
        let mut text = String::new();
        let mut spans: Vec<Span> = Vec::new();
        let mut offset: usize = 0;
        let list = words.words();
        let ghost all = words@;
        let mut i: usize = 0;
        while i < list.len()
            invariant
                i <= list.len(),
                all == texts(list@),
                text@ == concat(all.take(i as int)),
                offset == byte_len(text@),
                spans.len() == i,
                forall|k: int|
                    0 <= k < i ==> (#[trigger] spans[k]).start == byte_len(concat(all.take(k)))
                        && spans[k].len == byte_len(all[k]),
            decreases list.len() - i,
        {
            proof {
                lemma_concat_step(all, i as int);
            }
            text.append(list[i].as_str());
            let end: usize = text.as_str().as_bytes().len();
            spans.push(Span { start: offset, len: end - offset });
            offset = end;
            i = i + 1;
        }
        proof {
            assert(all.take(list.len() as int) =~= all);
            lemma_ground_truth_tiles(spans@, all);
        }
        Corpus { text, words, spans }
    }

    /// The ground truth of a corpus tiles its text: the offsets start at 0
    /// and increase strictly, each span ends where the next one starts, and
    /// the last one ends with the text.
    pub proof fn lemma_tiles(&self)
        requires
            self.wf(),
        ensures
            is_tiling(self.spans(), byte_len(self.text()) as int),
            self.spans().len() == self.words().len(),
            self.spans().len() > 0 ==> self.spans()[0].start == 0 && self.spans().last().end()
                == byte_len(self.text()),
            self.spans().len() == 0 ==> byte_len(self.text()) == 0,
            forall|i: int|
                0 < i < self.spans().len() ==> self.spans()[i - 1].end() == (
                #[trigger] self.spans()[i]).start,
            forall|i: int| 0 <= i < self.spans().len() ==> (#[trigger] self.spans()[i]).len > 0,
            forall|i: int, j: int|
                0 <= i < j < self.spans().len() ==> (#[trigger] self.spans()[i]).start < (
                #[trigger] self.spans()[j]).start,
    {
        lemma_ground_truth_tiles(self.spans(), self.words());
    }

    /// The text.
    pub fn buffer(&self) -> (text: &str)
        ensures
            text@ == self.text(),
    {
        self.text.as_str()
    }

    /// The number of bytes that the text takes.
    pub fn extent(&self) -> (extent: usize)
        ensures
            extent == byte_len(self.text()),
    {
        self.text.as_str().as_bytes().len()
    }

    /// The words that make up the text, in their order in it.
    pub fn word_order(&self) -> (words: &Dictionary)
        ensures
            words@ == self.words(),
    {
        &self.words
    }

    /// The byte range of every word, in the order of the words.
    pub fn ground_truth(&self) -> (spans: &Vec<Span>)
        ensures
            spans@ == self.spans(),
    {
        &self.spans
    }
}

/// A share of the dictionary, as the quotient `numer / denom`.
#[derive(Clone, Copy, Debug, PartialEq, Eq)]
pub struct Fraction {
    pub numer: u64,
    pub denom: u64,
}

impl Fraction {
    /// The fraction is at least 0 and less than 1.
    pub open spec fn is_proper(self) -> bool {
        self.numer < self.denom
    }

    /// The fraction of `count`, rounded down.
    pub open spec fn of(self, count: nat) -> nat {
        if self.denom == 0 {
            0
        } else {
            ((self.numer * count) / (self.denom as int)) as nat
        }
    }

    /// Whether the fraction is at least 0 and less than 1.
    pub fn in_range(&self) -> (proper: bool)
        ensures
            proper == self.is_proper(),
    {
        self.numer < self.denom
    }

    /// The fraction of `count`, rounded down.
    pub fn share(&self, count: usize) -> (share: usize)
        requires
            self.is_proper(),
        ensures
            share == self.of(count as nat),
            share <= count,
            count > 0 ==> share < count,
    {
        proof {
            let n = self.numer as int;
            let c = count as int;
            assert(0 <= n * c <= 0xFFFF_FFFF_FFFF_FFFF * 0xFFFF_FFFF_FFFF_FFFF) by (nonlinear_arith)
                requires
                    0 <= n <= 0xFFFF_FFFF_FFFF_FFFF,
                    0 <= c <= 0xFFFF_FFFF_FFFF_FFFF,
            ;
        }
        let product: u128 = (self.numer as u128) * (count as u128);
        let quotient: u128 = product / (self.denom as u128);
        proof {
            let n = self.numer as int;
            let d = self.denom as int;
            let c = count as int;
            assert(n * c <= d * c) by (nonlinear_arith)
                requires
                    0 <= n < d,
                    0 <= c,
            ;
            assert((n * c) / d <= c) by (nonlinear_arith)
                requires
                    0 <= n * c <= d * c,
                    d > 0,
            ;
            if c > 0 {
                assert(n * c < d * c) by (nonlinear_arith)
                    requires
                        0 <= n < d,
                        0 < c,
                ;
                assert((n * c) / d < c) by (nonlinear_arith)
                    requires
                        0 <= n * c < d * c,
                        d > 0,
                ;
            }
        }
        quotient as usize
    }
}

/// Why no corpus was made.
#[derive(Clone, Copy, Debug, PartialEq, Eq)]
pub enum SynthError {
    /// The fraction to withhold is not at least 0 and less than 1.
    FractionOutOfRange,
    /// The dictionary holds no word.
    EmptyDictionary,
}

/// What may be drawn from a dictionary for a trial: training words, which
/// are all but the withheld share of the dictionary's words, each once, and
/// the words of the corpus, which are the dictionary's words in some order.
pub open spec fn is_draw(
    dictionary: Seq<Seq<char>>,
    fraction: Fraction,
    training: Seq<Seq<char>>,
    words: Seq<Seq<char>>,
) -> bool {
    &&& is_vocabulary(training)
    &&& training.len() == dictionary.len() - fraction.of(dictionary.len())
    &&& training.len() > 0
    &&& forall|i: int| 0 <= i < training.len() ==> dictionary.contains(#[trigger] training[i])
    &&& is_vocabulary(words)
    &&& words.to_multiset() == dictionary.to_multiset()
}

/// Draws the material of one trial from the dictionary.
///
/// The words are shuffled; the first `fraction` of them (rounded down) are
/// withheld and the others make the training dictionary that the tokenizer
/// may know. Then all words are shuffled once more, independently, and
/// concatenated in that order into the corpus.
pub fn synthesize(dictionary: &Dictionary, fraction: Fraction, rng: &mut ThreadRng) -> (outcome:
    Result<(Dictionary, Corpus), SynthError>)
    requires
        dictionary.wf(),
    ensures
        match outcome {
            Ok((training, corpus)) => {
                &&& fraction.is_proper()
                &&& dictionary@.len() > 0
                &&& training.wf()
                &&& corpus.wf()
                &&& is_draw(dictionary@, fraction, training@, corpus.words())
            },
            Err(SynthError::FractionOutOfRange) => !fraction.is_proper(),
            Err(SynthError::EmptyDictionary) => fraction.is_proper() && dictionary@.len() == 0,
        },
{
    if !fraction.in_range() {
        return Err(SynthError::FractionOutOfRange);
    }
    if dictionary.len() == 0 {
        return Err(SynthError::EmptyDictionary);
    }
    let withheld: usize = fraction.share(dictionary.len());
    let mut order: Vec<String> = copy_words(dictionary.words());
    shuffle(&mut order, rng);
    proof {
        lemma_rearranged_vocabulary(dictionary@, texts(order@));
    }
    let training_words: Vec<String> = copy_from(&order, withheld);
    proof {
        let whole = texts(order@);
        let kept = texts(training_words@);
        assert forall|i: int| 0 <= i < kept.len() implies dictionary@.contains(
            #[trigger] kept[i],
        ) && is_word(kept[i]) by {
            assert(kept[i] == whole[withheld + i]);
            assert(whole.contains(whole[withheld + i]));
        }
        assert forall|i: int, j: int|
            0 <= i < kept.len() && 0 <= j < kept.len() && i != j implies kept[i] != kept[j] by {
            assert(kept[i] == whole[withheld + i]);
            assert(kept[j] == whole[withheld + j]);
        }
    }
    let training = Dictionary::from_vocabulary(training_words);
    let ghost first = texts(order@);
    shuffle(&mut order, rng);
    proof {
        lemma_rearranged_vocabulary(first, texts(order@));
    }
    let corpus = Corpus::build(Dictionary::from_vocabulary(order));
    Ok((training, corpus))
}

/// A rearrangement of a vocabulary is a vocabulary of the same words.
pub proof fn lemma_rearranged_vocabulary(words: Seq<Seq<char>>, rearranged: Seq<Seq<char>>)
    requires
        is_vocabulary(words),
        rearranged.to_multiset() == words.to_multiset(),
    ensures
        is_vocabulary(rearranged),
        rearranged.len() == words.len(),
        forall|w: Seq<char>| rearranged.contains(w) <==> words.contains(w),
{
    vstd::seq_lib::to_multiset_len(words);
    vstd::seq_lib::to_multiset_len(rearranged);
    assert forall|w: Seq<char>| rearranged.contains(w) <==> words.contains(w) by {
        vstd::seq_lib::to_multiset_contains(words, w);
        vstd::seq_lib::to_multiset_contains(rearranged, w);
    }
    words.lemma_multiset_has_no_duplicates();
    rearranged.lemma_multiset_has_no_duplicates_conv();
    assert forall|i: int| 0 <= i < rearranged.len() implies is_word(#[trigger] rearranged[i]) by {
        assert(rearranged.contains(rearranged[i]));
        let k = choose|k: int| 0 <= k < words.len() && words[k] == rearranged[i];
        assert(is_word(words[k]));
    }
}

/// A copy of the words.
fn copy_words(words: &Vec<String>) -> (copy: Vec<String>)
    ensures
        texts(copy@) == texts(words@),
{
    let copy = copy_from(words, 0);
    proof {
        assert(texts(copy@) =~= texts(words@));
    }
    copy
}

/// A copy of the words from index `from` on.
fn copy_from(words: &Vec<String>, from: usize) -> (copy: Vec<String>)
    requires
        from <= words.len(),
    ensures
        copy.len() == words.len() - from,
        forall|i: int|
            0 <= i < copy.len() ==> (#[trigger] texts(copy@)[i]) == texts(words@)[from + i],
{
    let mut copy: Vec<String> = Vec::new();
    let mut i: usize = from;
    while i < words.len()
        invariant
            from <= i <= words.len(),
            copy.len() == i - from,
            forall|k: int| 0 <= k < copy.len() ==> (#[trigger] copy[k])@ == words[from + k]@,
        decreases words.len() - i,
    {
        copy.push(words[i].clone());
        i = i + 1;
    }
    copy
}

} // verus!

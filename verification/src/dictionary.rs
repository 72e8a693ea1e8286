//! The dictionary: the distinct words of a whitespace-separated word list.

use vstd::hash_set::StringHashSet;
use vstd::prelude::*;
use vstd::std_specs::iter::IteratorSpec;
use vstd::string::StringExecFns;

verus! {

broadcast use vstd::string::group_string_axioms;

/// Whether the character separates words: one of the characters that
/// Unicode classes as `White_Space`.
pub open spec fn is_separator(c: char) -> bool {
    let code = c as u32;
    ||| 0x09 <= code <= 0x0D
    ||| code == 0x20
    ||| code == 0x85
    ||| code == 0xA0
    ||| code == 0x1680
    ||| 0x2000 <= code <= 0x200A
    ||| code == 0x2028
    ||| code == 0x2029
    ||| code == 0x202F
    ||| code == 0x205F
    ||| code == 0x3000
}

/// A word is a non-empty run of characters none of which separates words.
pub open spec fn is_word(word: Seq<char>) -> bool {
    &&& word.len() > 0
    &&& forall|i: int| 0 <= i < word.len() ==> !is_separator(#[trigger] word[i])
}

/// The words completed within `text`, and the run of word characters that
/// `text` ends in.
pub open spec fn scan(text: Seq<char>) -> (Seq<Seq<char>>, Seq<char>)
    decreases text.len(),
{
    if text.len() == 0 {
        (Seq::empty(), Seq::empty())
    } else {
        let (done, run) = scan(text.drop_last());
        if !is_separator(text.last()) {
            (done, run.push(text.last()))
        } else if run.len() > 0 {
            (done.push(run), Seq::empty())
        } else {
            (done, run)
        }
    }
}

/// The maximal runs of word characters in `text`, from left to right.
pub open spec fn words_of(text: Seq<char>) -> Seq<Seq<char>> {
    let (done, run) = scan(text);
    if run.len() > 0 {
        done.push(run)
    } else {
        done
    }
}

/// The words without repetitions: of each, the first occurrence stays.
pub open spec fn first_occurrences(words: Seq<Seq<char>>) -> Seq<Seq<char>>
    decreases words.len(),
{
    if words.len() == 0 {
        Seq::empty()
    } else {
        let kept = first_occurrences(words.drop_last());
        if kept.contains(words.last()) {
            kept
        } else {
            kept.push(words.last())
        }
    }
}

/// The sequence holds words only, and none twice.
pub open spec fn is_vocabulary(words: Seq<Seq<char>>) -> bool {
    &&& words.no_duplicates()
    &&& forall|i: int| 0 <= i < words.len() ==> is_word(#[trigger] words[i])
}

/// The words written one after another with nothing between them.
pub open spec fn concat(words: Seq<Seq<char>>) -> Seq<char>
    decreases words.len(),
{
    if words.len() == 0 {
        Seq::empty()
    } else {
        concat(words.drop_last()) + words.last()
    }
}

/// The words written one to a line: each is followed by a line feed.
pub open spec fn lines(words: Seq<Seq<char>>) -> Seq<char>
    decreases words.len(),
{
    if words.len() == 0 {
        Seq::empty()
    } else {
        lines(words.drop_last()) + words.last().push('\n')
    }
}

/// The characters of the text that separate no words, in order.
pub open spec fn word_characters(text: Seq<char>) -> Seq<char> {
    text.filter(|c: char| !is_separator(c))
}

/// The character sequences that the strings hold, in order.
pub open spec fn texts(words: Seq<String>) -> Seq<Seq<char>> {
    Seq::new(words.len(), |i: int| words[i]@)
}

/// Scanning yields words only, and the run it ends in holds no separator.
pub proof fn lemma_scan_yields_words(text: Seq<char>)
    ensures
        forall|i: int| 0 <= i < scan(text).0.len() ==> is_word(#[trigger] scan(text).0[i]),
        forall|i: int| 0 <= i < scan(text).1.len() ==> !is_separator(#[trigger] scan(text).1[i]),
        forall|i: int| 0 <= i < words_of(text).len() ==> is_word(#[trigger] words_of(text)[i]),
    decreases text.len(),
{
    if text.len() > 0 {
        let before = text.drop_last();
        lemma_scan_yields_words(before);
        let (done, run) = scan(before);
        let c = text.last();
        if !is_separator(c) {
            let longer = run.push(c);
            assert(scan(text) == (done, longer));
            assert forall|i: int| 0 <= i < longer.len() implies !is_separator(
                #[trigger] longer[i],
            ) by {
                if i < run.len() {
                    assert(longer[i] == scan(before).1[i]);
                }
            }
        } else if run.len() > 0 {
            let more = done.push(run);
            assert(scan(text) == (more, Seq::<char>::empty()));
            assert(is_word(run)) by {
                assert forall|i: int| 0 <= i < run.len() implies !is_separator(
                    #[trigger] run[i],
                ) by {
                    assert(run[i] == scan(before).1[i]);
                }
            }
            assert forall|i: int| 0 <= i < more.len() implies is_word(#[trigger] more[i]) by {
                if i < done.len() {
                    assert(more[i] == scan(before).0[i]);
                }
            }
        } else {
            assert(scan(text) == (done, run));
        }
    }
    let (done, run) = scan(text);
    if run.len() > 0 {
        let all = done.push(run);
        assert(is_word(run)) by {
            assert forall|i: int| 0 <= i < run.len() implies !is_separator(#[trigger] run[i]) by {
                assert(run[i] == scan(text).1[i]);
            }
        }
        assert forall|i: int| 0 <= i < all.len() implies is_word(#[trigger] all[i]) by {
            if i < done.len() {
                assert(all[i] == scan(text).0[i]);
            }
        }
    }
}

proof fn lemma_scan_keeps_characters(text: Seq<char>)
    ensures
        concat(scan(text).0) + scan(text).1 == word_characters(text),
    decreases text.len(),
{
    reveal(Seq::filter);
    if text.len() > 0 {
        let before = text.drop_last();
        lemma_scan_keeps_characters(before);
        let (done, run) = scan(before);
        let c = text.last();
        if !is_separator(c) {
            assert(scan(text) == (done, run.push(c)));
            assert(concat(done) + run.push(c) =~= (concat(done) + run).push(c));
        } else if run.len() > 0 {
            assert(scan(text) == (done.push(run), Seq::<char>::empty()));
            assert(done.push(run).drop_last() =~= done);
            assert(concat(done.push(run)) + Seq::<char>::empty() =~= concat(done) + run);
        } else {
            assert(scan(text) == (done, run));
        }
    } else {
        assert(concat(scan(text).0) + scan(text).1 =~= word_characters(text));
    }
}

/// Splitting loses no character of a word and adds none: the words of a
/// text, written one after another, are the text without its separators.
pub proof fn lemma_words_keep_characters(text: Seq<char>)
    ensures
        concat(words_of(text)) == word_characters(text),
{
    lemma_scan_keeps_characters(text);
    let (done, run) = scan(text);
    if run.len() > 0 {
        assert(done.push(run).drop_last() =~= done);
    } else {
        assert(concat(done) + run =~= concat(done));
    }
}

proof fn lemma_scan_word(text: Seq<char>, word: Seq<char>)
    requires
        forall|i: int| 0 <= i < word.len() ==> !is_separator(#[trigger] word[i]),
    ensures
        scan(text + word) == (scan(text).0, scan(text).1 + word),
    decreases word.len(),
{
    if word.len() == 0 {
        assert(text + word =~= text);
        assert(scan(text).1 + word =~= scan(text).1);
    } else {
        let shorter = word.drop_last();
        lemma_scan_word(text, shorter);
        assert((text + word).drop_last() =~= text + shorter);
        assert((text + word).last() == word[word.len() - 1]);
        assert((scan(text).1 + shorter).push(word.last()) =~= scan(text).1 + word);
    }
}

proof fn lemma_scan_lines(words: Seq<Seq<char>>)
    requires
        forall|i: int| 0 <= i < words.len() ==> is_word(#[trigger] words[i]),
    ensures
        scan(lines(words)) == (words, Seq::<char>::empty()),
    decreases words.len(),
{
    if words.len() > 0 {
        let before = words.drop_last();
        let word = words.last();
        assert(is_word(words[words.len() - 1]));
        lemma_scan_lines(before);
        lemma_scan_word(lines(before), word);
        let line = lines(before) + word.push('\n');
        assert(line.drop_last() =~= lines(before) + word);
        assert(line.last() == '\n');
        assert(is_separator('\n'));
        assert(Seq::<char>::empty() + word =~= word);
        assert(before.push(word) =~= words);
    }
}

proof fn lemma_first_occurrences_of_distinct(words: Seq<Seq<char>>)
    requires
        words.no_duplicates(),
    ensures
        first_occurrences(words) == words,
    decreases words.len(),
{
    if words.len() > 0 {
        let before = words.drop_last();
        lemma_first_occurrences_of_distinct(before);
        if before.contains(words.last()) {
            let k = choose|k: int| 0 <= k < before.len() && before[k] == words.last();
            assert(words[k] == words[words.len() - 1]);
        }
        assert(before.push(words.last()) =~= words);
    }
}

/// A vocabulary written one word to a line reads back as itself.
pub proof fn lemma_lines_read_back(words: Seq<Seq<char>>)
    requires
        is_vocabulary(words),
    ensures
        words_of(lines(words)) == words,
        first_occurrences(words_of(lines(words))) == words,
{
    lemma_scan_lines(words);
    lemma_first_occurrences_of_distinct(words);
}

/// What is kept holds no word twice, and holds exactly the words given.
pub proof fn lemma_first_occurrences(words: Seq<Seq<char>>)
    ensures
        first_occurrences(words).no_duplicates(),
        forall|w: Seq<char>|
            #![trigger first_occurrences(words).contains(w)]
            #![trigger words.contains(w)]
            first_occurrences(words).contains(w) <==> words.contains(w),
        first_occurrences(words).len() <= words.len(),
    decreases words.len(),
{
    if words.len() > 0 {
        let before = words.drop_last();
        let last = words.last();
        let kept = first_occurrences(before);
        let after = first_occurrences(words);
        lemma_first_occurrences(before);
        assert forall|w: Seq<char>| after.contains(w) implies words.contains(w) by {
            let k = choose|k: int| 0 <= k < after.len() && after[k] == w;
            if k < kept.len() {
                assert(kept[k] == w);
                assert(kept.contains(w));
                assert(before.contains(w));
                let b = choose|b: int| 0 <= b < before.len() && before[b] == w;
                assert(words[b] == w);
            } else {
                assert(words[words.len() - 1] == w);
            }
        }
        assert forall|w: Seq<char>| words.contains(w) implies after.contains(w) by {
            let b = choose|b: int| 0 <= b < words.len() && words[b] == w;
            if b < before.len() {
                assert(before[b] == w);
                assert(before.contains(w));
                assert(kept.contains(w));
                let k = choose|k: int| 0 <= k < kept.len() && kept[k] == w;
                assert(after[k] == w);
            } else if kept.contains(last) {
                assert(w == last);
            } else {
                assert(after[after.len() - 1] == w);
            }
        }
        if !kept.contains(last) {
            assert forall|i: int, j: int|
                0 <= i < after.len() && 0 <= j < after.len() && i != j implies after[i]
                != after[j] by {
                if i < kept.len() && j < kept.len() {
                    assert(kept[i] != kept[j]);
                } else if i < kept.len() {
                    assert(kept.contains(kept[i]));
                } else {
                    assert(kept.contains(kept[j]));
                }
            }
        }
    }
}

/// A set of distinct words.
pub struct Dictionary {
    words: Vec<String>,
}

impl View for Dictionary {
    type V = Seq<Seq<char>>;

    /// The words, in the order in which the dictionary holds them.
    closed spec fn view(&self) -> Seq<Seq<char>> {
        texts(self.words@)
    }
}

/// Whether the character separates words.
pub fn separates(c: char) -> (b: bool)
    ensures
        b == is_separator(c),
{
    let code: u32 = c as u32;
    (0x09 <= code && code <= 0x0D) || code == 0x20 || code == 0x85 || code == 0xA0 || code
        == 0x1680 || (0x2000 <= code && code <= 0x200A) || code == 0x2028 || code == 0x2029 || code
        == 0x202F || code == 0x205F || code == 0x3000
}

/// `String::push` appends the character to the end of the string.
pub assume_specification[ String::push ](s: &mut String, c: char)
    ensures
        final(s)@ == old(s)@.push(c),
;

impl Dictionary {
    /// What every dictionary satisfies: its words are words, and distinct.
    pub open spec fn wf(&self) -> bool {
        is_vocabulary(self@)
    }

    /// The dictionary of the given words.
    pub(crate) fn from_vocabulary(words: Vec<String>) -> (dictionary: Self)
        requires
            is_vocabulary(texts(words@)),
        ensures
            dictionary.wf(),
            dictionary@ == texts(words@),
    {
        Dictionary { words }
    }

    /// The number of words.
    pub fn len(&self) -> (len: usize)
        ensures
            len == self@.len(),
    {
        self.words.len()
    }

    /// The words, in the order in which the dictionary holds them.
    pub fn words(&self) -> (words: &Vec<String>)
        ensures
            texts(words@) == self@,
    {
        &self.words
    }

    /// The words one to a line, in the order in which the dictionary holds
    /// them. Read as a word list, the text gives the dictionary back.
    pub fn to_text(&self) -> (text: String)
        requires
            self.wf(),
        ensures
            text@ == lines(self@),
            first_occurrences(words_of(text@)) == self@,
    {
        let mut text = String::new();
        let mut i: usize = 0;
        while i < self.words.len()
            invariant
                i <= self.words.len(),
                text@ == lines(self@.take(i as int)),
            decreases self.words.len() - i,
        {
            proof {
                assert(self@.take(i + 1).drop_last() =~= self@.take(i as int));
                assert(text@ + self@[i as int] + seq!['\n'] =~= text@ + self@[i as int].push('\n'));
            }
            text.append(self.words[i].as_str());
            text.push('\n');
            i = i + 1;
        }
        proof {
            assert(self@.take(self.words.len() as int) =~= self@);
            lemma_lines_read_back(self@);
        }
        text
    }

    /// The dictionary of the words in `text`: the text is split at whitespace
    /// and each word is kept where it first occurs.
    pub fn from_text(text: &str) -> (dictionary: Self)
        ensures
            dictionary.wf(),
            dictionary@ == first_occurrences(words_of(text@)),
            forall|word: Seq<char>| dictionary@.contains(word) <==> words_of(text@).contains(word),
    {
        let mut words: Vec<String> = Vec::new();
        let mut seen = StringHashSet::new();
        let mut run = String::new();
        let mut chars = text.chars();
        let ghost mut read: Seq<char> = Seq::empty();
        let ghost mut done: Seq<Seq<char>> = Seq::empty();
        loop
            invariant
                chars.obeys_prophetic_iter_laws(),
                chars.decrease() is Some,
                read + chars.remaining() == text@,
                scan(read) == (done, run@),
                texts(words@) == first_occurrences(done),
                seen@ == texts(words@).to_set(),
            ensures
                read == text@,
            decreases chars.decrease()->0,
        {
            let next = chars.next();
            match next {
                None => {
                    proof {
                        assert(read =~= text@);
                    }
                    break ;
                },
                Some(c) => {
                    proof {
                        assert(read.push(c).drop_last() =~= read);
                        assert(read.push(c) + chars.remaining() =~= text@);
                    }
                    if !separates(c) {
                        run.push(c);
                    } else if !run.as_str().is_empty() {
                        let finished = run;
                        run = String::new();
                        proof {
                            assert(done.push(finished@).drop_last() =~= done);
                            lemma_texts_push(words@, finished);
                        }
                        if seen.insert(finished.clone()) {
                            words.push(finished);
                        }
                        proof {
                            done = done.push(finished@);
                        }
                    }
                    proof {
                        read = read.push(c);
                    }
                },
            }
        }
        if !run.as_str().is_empty() {
            proof {
                assert(done.push(run@).drop_last() =~= done);
                lemma_texts_push(words@, run);
            }
            if seen.insert(run.clone()) {
                words.push(run);
            }
        }
        proof {
            lemma_scan_yields_words(text@);
            lemma_first_occurrences(words_of(text@));
            lemma_kept_words_are_words(words_of(text@));
        }
        Dictionary { words }
    }
}

/// Appending a string appends its text, and adds it to the set of texts.
proof fn lemma_texts_push(words: Seq<String>, word: String)
    ensures
        texts(words.push(word)) == texts(words).push(word@),
        texts(words.push(word)).to_set() == texts(words).to_set().insert(word@),
        texts(words).to_set().contains(word@) <==> texts(words).contains(word@),
{
    let before = texts(words);
    let after = texts(words.push(word));
    assert(after =~= before.push(word@));
    assert forall|w: Seq<char>| after.to_set().contains(w) <==> before.to_set().insert(
        word@,
    ).contains(w) by {
        if after.contains(w) {
            let k = choose|k: int| 0 <= k < after.len() && after[k] == w;
            if k < before.len() {
                assert(before[k] == w);
            }
        }
        if before.contains(w) {
            let k = choose|k: int| 0 <= k < before.len() && before[k] == w;
            assert(after[k] == w);
        }
        assert(after[before.len() as int] == word@);
    }
    assert(after.to_set() =~= before.to_set().insert(word@));
}

/// Keeping first occurrences of words leaves words.
proof fn lemma_kept_words_are_words(words: Seq<Seq<char>>)
    requires
        forall|i: int| 0 <= i < words.len() ==> is_word(#[trigger] words[i]),
    ensures
        is_vocabulary(first_occurrences(words)),
{
    lemma_first_occurrences(words);
    let kept = first_occurrences(words);
    assert forall|i: int| 0 <= i < kept.len() implies is_word(#[trigger] kept[i]) by {
        assert(kept.contains(kept[i]));
        assert(words.contains(kept[i]));
    }
}

} // verus!

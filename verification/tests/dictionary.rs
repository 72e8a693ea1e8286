use segment_eval::dictionary::separates;
use segment_eval::dictionary::Dictionary;

fn words(dictionary: &Dictionary) -> Vec<&str> {
    dictionary.words().iter().map(|w| w.as_str()).collect()
}

#[test]
fn entries_are_split_at_whitespace() {
    let dictionary = Dictionary::from_text("a bb\tccc\ndd  ee\r\nff");
    assert_eq!(words(&dictionary), vec!["a", "bb", "ccc", "dd", "ee", "ff"]);
    assert_eq!(dictionary.len(), 6);
}

#[test]
fn a_word_is_kept_where_it_first_occurs() {
    let dictionary = Dictionary::from_text("bb a bb ccc a bb");
    assert_eq!(words(&dictionary), vec!["bb", "a", "ccc"]);
}

#[test]
fn text_without_words_gives_an_empty_dictionary() {
    assert_eq!(Dictionary::from_text("").len(), 0);
    assert_eq!(Dictionary::from_text(" \n\t \u{3000}").len(), 0);
}

#[test]
fn whitespace_at_the_ends_is_dropped() {
    let dictionary = Dictionary::from_text("\n  first last \n");
    assert_eq!(words(&dictionary), vec!["first", "last"]);
}

#[test]
fn thai_entries_with_several_words_are_split() {
    let dictionary = Dictionary::from_text("กรุงเทพ มหานคร\nจังหวัด\nกรุงเทพ\n");
    assert_eq!(words(&dictionary), vec!["กรุงเทพ", "มหานคร", "จังหวัด"]);
}

#[test]
fn unicode_spaces_separate_words() {
    let dictionary = Dictionary::from_text("one\u{00A0}two\u{2003}three\u{3000}four\u{0085}five");
    assert_eq!(words(&dictionary), vec!["one", "two", "three", "four", "five"]);
}

#[test]
fn the_zero_width_space_is_part_of_a_word() {
    let dictionary = Dictionary::from_text("a\u{200B}b c");
    assert_eq!(words(&dictionary), vec!["a\u{200B}b", "c"]);
}

#[test]
fn splitting_agrees_with_the_standard_library() {
    let text = "  alpha\u{2028}beta\u{205F}\u{1680}gamma\u{000B}delta\u{000C}\u{202F}epsilon \u{2029}";
    let expected: Vec<&str> = text.split_whitespace().collect();
    assert_eq!(words(&Dictionary::from_text(text)), expected);
}

#[test]
fn separators_are_the_whitespace_characters() {
    for code in 0..=0x10FFFFu32 {
        if let Some(c) = char::from_u32(code) {
            assert_eq!(separates(c), c.is_whitespace());
        }
    }
}

#[test]
fn the_words_are_written_one_to_a_line() {
    let dictionary = Dictionary::from_text("bb a  bb\tccc");
    assert_eq!(dictionary.to_text(), "bb\na\nccc\n");
    assert_eq!(Dictionary::from_text("").to_text(), "");
}

#[test]
fn a_written_dictionary_reads_back_as_itself() {
    let dictionary = Dictionary::from_text("กรุงเทพ มหานคร\nจังหวัด x\u{3000}y\nกรุงเทพ\n");
    let written = dictionary.to_text();
    let read = Dictionary::from_text(&written);
    assert_eq!(read.words(), dictionary.words());
    assert_eq!(read.to_text(), written);
}

use wordcount::{count, CountOption, DecodingError};

#[test]
fn word_count_works() {
    let freq = count(b"aa bb cc bb", CountOption::Word).unwrap();
    assert_eq!(freq.get("aa"), Some(1));
    assert_eq!(freq.get("bb"), Some(2));
    assert_eq!(freq.get("cc"), Some(1));
    assert_eq!(freq.len(), 3);
}

#[test]
fn word_count_works2() {
    let freq = count(b"aa", CountOption::Word).unwrap();
    assert_eq!(freq.get("aa"), Some(1));
    assert_eq!(freq.len(), 1);
}

#[test]
#[should_panic]
fn word_count_contain_unknown_words() {
    count(
        &[
            b'a',
            0xf0, 0x90, 0x80,
            0xe3, 0x81, 0x82,
        ],
        CountOption::Word,
    )
    .unwrap();
}

#[test]
fn decoding_failure_returns_the_error() {
    let r = count(&[b'a', 0xf0, 0x90, 0x80, 0xe3, 0x81, 0x82], CountOption::Word);
    assert_eq!(r.err(), Some(DecodingError));
    assert!(count(&[0xff], CountOption::Char).is_err());
    assert!(count(&[0xff], CountOption::Line).is_err());
}

#[test]
fn char_mode_counts_scalars_not_bytes() {
    // Two copies of a three-byte character make one key with count two.
    let freq = count("\u{3042}\u{3042}".as_bytes(), CountOption::Char).unwrap();
    assert_eq!(freq.get("\u{3042}"), Some(2));
    assert_eq!(freq.len(), 1);
    assert_eq!(freq.total(), 2);
}

#[test]
fn char_mode_counts_each_character() {
    let freq = count(b"abca", CountOption::Char).unwrap();
    assert_eq!(freq.get("a"), Some(2));
    assert_eq!(freq.get("b"), Some(1));
    assert_eq!(freq.get("c"), Some(1));
    assert_eq!(freq.len(), 3);
    assert_eq!(freq.total(), 4);
}

#[test]
fn line_mode_keeps_whole_lines() {
    let freq = count(b"foo bar\nfoo bar\nbaz", CountOption::Line).unwrap();
    assert_eq!(freq.get("foo bar"), Some(2));
    assert_eq!(freq.get("baz"), Some(1));
    assert_eq!(freq.len(), 2);
    assert_eq!(freq.total(), 3);
}

#[test]
fn word_mode_on_multiline_input() {
    let freq = count(b"foo bar\nfoo bar\nbaz", CountOption::Word).unwrap();
    assert_eq!(freq.get("foo"), Some(2));
    assert_eq!(freq.get("bar"), Some(2));
    assert_eq!(freq.get("baz"), Some(1));
    assert_eq!(freq.len(), 3);
    assert_eq!(freq.total(), 5);
}

#[test]
fn empty_input_yields_empty_table() {
    for option in [CountOption::Char, CountOption::Word, CountOption::Line] {
        let freq = count(b"", option).unwrap();
        assert_eq!(freq.len(), 0);
        assert_eq!(freq.total(), 0);
    }
}

#[test]
fn totals_equal_number_of_units() {
    let freq = count(b"aa bb cc bb", CountOption::Word).unwrap();
    assert_eq!(freq.total(), 4);
    let freq = count(b"aa bb cc bb", CountOption::Char).unwrap();
    assert_eq!(freq.total(), 11);
    let freq = count(b"aa bb cc bb", CountOption::Line).unwrap();
    assert_eq!(freq.total(), 1);
}

#[test]
fn default_mode_is_word() {
    assert_eq!(CountOption::default(), CountOption::Word);
}

#[test]
fn underscore_is_a_word_character() {
    let freq = count(b"a_b c", CountOption::Word).unwrap();
    assert_eq!(freq.get("a_b"), Some(1));
    assert_eq!(freq.get("c"), Some(1));
    assert_eq!(freq.len(), 2);
}

#[test]
fn punctuation_separates_words() {
    let freq = count(b"one,two; one!", CountOption::Word).unwrap();
    assert_eq!(freq.get("one"), Some(2));
    assert_eq!(freq.get("two"), Some(1));
    assert_eq!(freq.len(), 2);
}

#[test]
fn line_with_no_word_characters_contributes_nothing() {
    let freq = count(b"...  ---\n!!!", CountOption::Word).unwrap();
    assert_eq!(freq.len(), 0);
    assert_eq!(freq.total(), 0);
}

#[test]
fn carriage_return_before_line_feed_is_stripped() {
    let freq = count(b"a\r\nb", CountOption::Line).unwrap();
    assert_eq!(freq.get("a"), Some(1));
    assert_eq!(freq.get("b"), Some(1));
    assert_eq!(freq.len(), 2);
    let freq = count(b"a\r\na", CountOption::Char).unwrap();
    assert_eq!(freq.get("a"), Some(2));
    assert_eq!(freq.len(), 1);
}

#[test]
fn trailing_carriage_return_without_line_feed_stays() {
    let freq = count(b"a\r", CountOption::Line).unwrap();
    assert_eq!(freq.get("a\r"), Some(1));
    assert_eq!(freq.get("a"), None);
    assert_eq!(freq.len(), 1);
}

#[test]
fn trailing_line_feed_adds_no_line() {
    let freq = count(b"x\n", CountOption::Line).unwrap();
    assert_eq!(freq.get("x"), Some(1));
    assert_eq!(freq.len(), 1);
}

#[test]
fn empty_lines_count_in_line_mode() {
    let freq = count(b"\n\n", CountOption::Line).unwrap();
    assert_eq!(freq.get(""), Some(2));
    assert_eq!(freq.len(), 1);
    let freq = count(b"\n\n", CountOption::Char).unwrap();
    assert_eq!(freq.len(), 0);
}

#[test]
fn unicode_words_are_kept_whole() {
    // A word of non-ASCII letters is one token.
    let text = "caf\u{e9} caf\u{e9}";
    let freq = count(text.as_bytes(), CountOption::Word).unwrap();
    assert_eq!(freq.get("caf\u{e9}"), Some(2));
    assert_eq!(freq.len(), 1);
}

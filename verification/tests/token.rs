use simple_mc::token::{has_trailing_comma, is_space};
use simple_mc::{split_words, trimcomma};

#[test]
fn trimcomma_leaves_a_word_without_comma() {
    assert_eq!(trimcomma("abc"), "abc");
    assert_eq!(trimcomma(""), "");
    assert_eq!(trimcomma("a,b"), "a,b");
    assert_eq!(trimcomma("abc."), "abc.");
}

#[test]
fn trimcomma_takes_one_comma_only() {
    assert_eq!(trimcomma("abc,,"), "abc,");
    assert_eq!(trimcomma(","), "");
    assert_eq!(trimcomma("été,"), "été");
}

#[test]
fn trimcomma_twice_is_trimcomma_once() {
    for word in ["abc,", "abc", "", ",", "a,b,", "don't,"] {
        assert_eq!(trimcomma(trimcomma(word)), trimcomma(word));
    }
    assert_ne!(trimcomma(trimcomma("abc,,")), trimcomma("abc,,"));
}

#[test]
fn trailing_comma_is_seen() {
    assert!(has_trailing_comma("this,"));
    assert!(has_trailing_comma(","));
    assert!(!has_trailing_comma("this"));
    assert!(!has_trailing_comma(",this"));
    assert!(!has_trailing_comma(""));
}

#[test]
fn words_are_split_on_runs_of_whitespace() {
    assert_eq!(split_words("hello world"), vec!["hello", "world"]);
    assert_eq!(split_words("  hello \t  world\r"), vec!["hello", "world"]);
    assert_eq!(split_words("not this, though"), vec!["not", "this,", "though"]);
    assert_eq!(split_words("one"), vec!["one"]);
    assert_eq!(split_words("a\u{a0}b\u{3000}c"), vec!["a", "b", "c"]);
}

#[test]
fn a_line_without_words_gives_none() {
    assert!(split_words("").is_empty());
    assert!(split_words(" \t ").is_empty());
}

#[test]
fn punctuation_other_than_whitespace_stays_in_the_word() {
    assert_eq!(split_words("it's over."), vec!["it's", "over."]);
    assert_eq!(split_words("a , b"), vec!["a", ",", "b"]);
}

#[test]
fn whitespace_is_what_unicode_lists() {
    let mut spaces = 0;
    for code in 0..=0x10ffffu32 {
        if let Some(c) = char::from_u32(code) {
            assert_eq!(is_space(c), c.is_whitespace(), "U+{:04X}", code);
            if is_space(c) {
                spaces += 1;
            }
        }
    }
    assert_eq!(spaces, 25);
}

#[test]
fn blanks_controls_and_wide_spaces_are_whitespace() {
    for c in [' ', '\t', '\n', '\u{b}', '\u{c}', '\r', '\u{85}', '\u{a0}', '\u{2003}', '\u{3000}'] {
        assert!(is_space(c), "{:?}", c);
    }
    for c in ['a', ',', '.', '0', '_', '\u{0}', '\u{8}', '\u{e}', '\u{200b}', '\u{feff}'] {
        assert!(!is_space(c), "{:?}", c);
    }
}

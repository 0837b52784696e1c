//! Splitting text into lines and lines into words.

use vstd::prelude::*;
use vstd::string::*;

verus! {

/// Whether `c` separates words: whether it is one of the characters that Unicode
/// lists as `White_Space`.
pub open spec fn is_whitespace(c: char) -> bool {
    let n = c as u32;
    ||| 0x09 <= n <= 0x0d
    ||| n == 0x20
    ||| n == 0x85
    ||| n == 0xa0
    ||| n == 0x1680
    ||| 0x2000 <= n <= 0x200a
    ||| n == 0x2028
    ||| n == 0x2029
    ||| n == 0x202f
    ||| n == 0x205f
    ||| n == 0x3000
}

/// Whether `c` separates words.
pub fn is_space(c: char) -> (space: bool)
    ensures
        space == is_whitespace(c),
{
    let n: u32 = c as u32;
    (0x09 <= n && n <= 0x0d) || n == 0x20 || n == 0x85 || n == 0xa0 || n == 0x1680 || (0x2000 <= n
        && n <= 0x200a) || n == 0x2028 || n == 0x2029 || n == 0x202f || n == 0x205f || n == 0x3000
}

/// `String::push`: appends one character to the end of the string.
#[verifier::external_body]
fn push_char(text: &mut String, c: char)
    ensures
        final(text)@ == old(text)@.push(c),
{
    text.push(c)
}

/// The texts of `words`, in order.
pub open spec fn texts(words: Seq<String>) -> Seq<Seq<char>> {
    Seq::new(words.len(), |i: int| words[i]@)
}

/// Whether the last character of `word` is a comma.
pub open spec fn ends_with_comma(word: Seq<char>) -> bool {
    word.len() > 0 && word.last() == ','
}

/// `word` without its last character where that is a comma, else `word` itself.
pub open spec fn trim_comma(word: Seq<char>) -> Seq<char> {
    if ends_with_comma(word) {
        word.drop_last()
    } else {
        word
    }
}

/// A word without a trailing comma is left as it is.
pub proof fn lemma_trim_comma_keeps(word: Seq<char>)
    requires
        !ends_with_comma(word),
    ensures
        trim_comma(word) == word,
{
}

/// Trimming what was trimmed changes nothing more, unless the word ends with two
/// commas: only one comma is taken at a time.
pub proof fn lemma_trim_comma_idempotent(word: Seq<char>)
    requires
        !(ends_with_comma(word) && ends_with_comma(word.drop_last())),
    ensures
        trim_comma(trim_comma(word)) == trim_comma(word),
{
}

/// The length of the longest prefix of `s` without whitespace.
pub open spec fn word_len(s: Seq<char>) -> nat
    decreases s.len(),
{
    if s.len() == 0 || is_whitespace(s[0]) {
        0
    } else {
        1 + word_len(s.drop_first())
    }
}

/// The words of `s`: its maximal runs of characters that are not whitespace, in order.
pub open spec fn words_of(s: Seq<char>) -> Seq<Seq<char>>
    decreases s.len(),
    via words_of_decreases
{
    if s.len() == 0 {
        Seq::empty()
    } else if is_whitespace(s[0]) {
        words_of(s.drop_first())
    } else {
        seq![s.take(word_len(s) as int)] + words_of(s.skip(word_len(s) as int))
    }
}

#[via_fn]
proof fn words_of_decreases(s: Seq<char>) {
    lemma_word_len_bound(s);
}

/// The first word of `s` is no longer than `s`, and where it ends before `s` does,
/// whitespace follows it.
pub proof fn lemma_word_len_bound(s: Seq<char>)
    ensures
        word_len(s) <= s.len(),
        word_len(s) < s.len() ==> is_whitespace(s[word_len(s) as int]),
    decreases s.len(),
{
    if s.len() > 0 && !is_whitespace(s[0]) {
        lemma_word_len_bound(s.drop_first());
    }
}

/// Each word takes a character, and so does each gap between two words.
pub proof fn lemma_words_count(s: Seq<char>)
    ensures
        2 * words_of(s).len() <= s.len() + 1,
    decreases s.len(),
{
    if s.len() > 0 && is_whitespace(s[0]) {
        lemma_words_count(s.drop_first());
    } else if s.len() > 0 {
        lemma_word_len_bound(s);
        let n = word_len(s) as int;
        let rest = s.skip(n);
        assert(words_of(s).len() == 1 + words_of(rest).len());
        if rest.len() > 0 {
            lemma_words_count(rest.drop_first());
        } else {
            assert(words_of(rest) =~= Seq::<Seq<char>>::empty());
        }
    }
}

/// A run of `n` characters without whitespace that ends `s` or stands before
/// whitespace is the first word of `s`.
pub proof fn lemma_word_len_is(s: Seq<char>, n: nat)
    requires
        n <= s.len(),
        forall|k: int| 0 <= k < n ==> !is_whitespace(#[trigger] s[k]),
        n == s.len() || is_whitespace(s[n as int]),
    ensures
        word_len(s) == n,
    decreases n,
{
    if n > 0 {
        let rest = s.drop_first();
        assert forall|k: int| 0 <= k < n - 1 implies !is_whitespace(#[trigger] rest[k]) by {
            assert(rest[k] == s[k + 1]);
        }
        lemma_word_len_is(rest, (n - 1) as nat);
    }
}

/// The length of the first line of `s`: the number of characters before its first line feed.
pub open spec fn line_len(s: Seq<char>) -> nat
    decreases s.len(),
{
    if s.len() == 0 || s[0] == '\n' {
        0
    } else {
        1 + line_len(s.drop_first())
    }
}

/// The lines of `s`: the stretches between its line feeds, without them. A line feed
/// at the very end starts no further line.
pub open spec fn lines_of(s: Seq<char>) -> Seq<Seq<char>>
    decreases s.len(),
{
    if s.len() == 0 {
        Seq::empty()
    } else if line_len(s) < s.len() {
        seq![s.take(line_len(s) as int)] + lines_of(s.skip(line_len(s) as int + 1))
    } else {
        seq![s]
    }
}

/// A run of `n` characters without a line feed that ends `s` or stands before a
/// line feed is the first line of `s`.
pub proof fn lemma_line_len_is(s: Seq<char>, n: nat)
    requires
        n <= s.len(),
        forall|k: int| 0 <= k < n ==> #[trigger] s[k] != '\n',
        n == s.len() || s[n as int] == '\n',
    ensures
        line_len(s) == n,
    decreases n,
{
    if n > 0 {
        let rest = s.drop_first();
        assert forall|k: int| 0 <= k < n - 1 implies #[trigger] rest[k] != '\n' by {
            assert(rest[k] == s[k + 1]);
        }
        lemma_line_len_is(rest, (n - 1) as nat);
    }
}

/// Whether `word` ends with a comma.
pub fn has_trailing_comma(word: &str) -> (found: bool)
    ensures
        found == ends_with_comma(word@),
{
    let n = word.unicode_len();
    n > 0 && word.get_char(n - 1) == ','
}

/// Strips one trailing comma from `word`, if it has one.
pub fn trimcomma<'a>(word: &'a str) -> (trimmed: &'a str)
    ensures
        trimmed@ == trim_comma(word@),
{
    let n = word.unicode_len();
    if n > 0 && word.get_char(n - 1) == ',' {
        word.substring_char(0, n - 1)
    } else {
        word
    }
}

/// The characters of `text`, in order.
pub(crate) fn to_chars(text: &str) -> (chars: Vec<char>)
    ensures
        chars@ == text@,
{
    let mut chars: Vec<char> = Vec::new();
    for c in it: text.chars()
        invariant
            it.seq() == text@,
            chars@ == text@.take(it.index() as int),
    {
        chars.push(c);
    }
    chars
}

/// The characters of `chars` from `from` up to `to`, as a string.
fn string_between(chars: &Vec<char>, from: usize, to: usize) -> (text: String)
    requires
        from <= to <= chars.len(),
    ensures
        text@ == chars@.subrange(from as int, to as int),
{
    let mut text = String::new();
    let mut i: usize = from;
    while i < to
        invariant
            from <= i <= to <= chars.len(),
            text@ == chars@.subrange(from as int, i as int),
        decreases to - i,
    {
        push_char(&mut text, chars[i]);
        i += 1;
    }
    text
}

/// The words among the characters of `chars` from `from` up to `to`.
pub(crate) fn words_between(chars: &Vec<char>, from: usize, to: usize) -> (words: Vec<String>)
    requires
        from <= to <= chars.len(),
    ensures
        texts(words@) == words_of(chars@.subrange(from as int, to as int)),
{
    let mut words: Vec<String> = Vec::new();
    let mut i: usize = from;
    assert(texts(words@) + words_of(chars@.subrange(i as int, to as int)) =~= words_of(
        chars@.subrange(from as int, to as int),
    ));
    while i < to
        invariant
            from <= i <= to <= chars.len(),
            texts(words@) + words_of(chars@.subrange(i as int, to as int)) == words_of(
                chars@.subrange(from as int, to as int),
            ),
        decreases to - i,
    {
        let ghost rest = chars@.subrange(i as int, to as int);
        if is_space(chars[i]) {
            assert(rest.drop_first() =~= chars@.subrange(i + 1, to as int));
            i += 1;
        } else {
            let mut j: usize = i + 1;
            while j < to && !is_space(chars[j])
                invariant
                    i < j <= to <= chars.len(),
                    forall|k: int| i <= k < j ==> !is_whitespace(#[trigger] chars[k]),
                decreases to - j,
            {
                j += 1;
            }
            let word = string_between(chars, i, j);
            proof {
                lemma_word_len_is(rest, (j - i) as nat);
                assert(rest.take(j - i) =~= word@);
                assert(rest.skip(j - i) =~= chars@.subrange(j as int, to as int));
            }
            let ghost before = texts(words@);
            words.push(word);
            proof {
                assert(texts(words@) + words_of(chars@.subrange(j as int, to as int)) =~= before
                    + words_of(rest));
            }
            i = j;
        }
    }
    words
}

/// Splits `line` into its words.
pub fn split_words(line: &str) -> (words: Vec<String>)
    ensures
        texts(words@) == words_of(line@),
{
    let chars = to_chars(line);
    assert(chars@.subrange(0, chars@.len() as int) =~= line@);
    words_between(&chars, 0, chars.len())
}

} // verus!

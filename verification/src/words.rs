use vstd::prelude::*;

verus! {

/// Whether `c` is a whitespace character: the set of code points with the
/// Unicode `White_Space` property, which is what message tokenization
/// splits on.
pub open spec fn is_ws(c: char) -> bool {
    c == ' ' || c == '\t' || c == '\n' || c == '\r' || c == '\u{000B}' || c == '\u{000C}'
        || c == '\u{0085}' || c == '\u{00A0}' || c == '\u{1680}'
        || ('\u{2000}' <= c && c <= '\u{200A}') || c == '\u{2028}' || c == '\u{2029}'
        || c == '\u{202F}' || c == '\u{205F}' || c == '\u{3000}'
}

/// Whether position `i` of `s` starts a whitespace-delimited word: it holds
/// a non-whitespace character that is either at the start of the text or
/// preceded by whitespace.
pub open spec fn starts_word(s: Seq<char>, i: int) -> bool {
    0 <= i < s.len() && !is_ws(s[i]) && (i == 0 || is_ws(s[i - 1]))
}

/// The number of word starts among the first `n` characters of `s`.
pub open spec fn word_starts_upto(s: Seq<char>, n: int) -> nat
    decreases n,
{
    if n <= 0 {
        0
    } else {
        word_starts_upto(s, n - 1) + (if starts_word(s, n - 1) {
            1nat
        } else {
            0nat
        })
    }
}

/// The number of whitespace-delimited words in `s`: the number of maximal
/// nonempty runs of non-whitespace characters, counted by their first
/// character.
pub open spec fn word_count(s: Seq<char>) -> nat {
    word_starts_upto(s, s.len() as int)
}

/// There are never more word starts among the first `n` characters than
/// there are characters.
pub proof fn lemma_word_starts_upto_bound(s: Seq<char>, n: int)
    requires
        n >= 0,
    ensures
        word_starts_upto(s, n) <= n,
    decreases n,
{
    if n > 0 {
        lemma_word_starts_upto_bound(s, n - 1);
    }
}

/// Whitespace test matching `is_ws`.
pub fn is_whitespace_char(c: char) -> (r: bool)
    ensures
        r == is_ws(c),
{
    c == ' ' || c == '\t' || c == '\n' || c == '\r' || c == '\u{000B}' || c == '\u{000C}'
        || c == '\u{0085}' || c == '\u{00A0}' || c == '\u{1680}'
        || ('\u{2000}' <= c && c <= '\u{200A}') || c == '\u{2028}' || c == '\u{2029}'
        || c == '\u{202F}' || c == '\u{205F}' || c == '\u{3000}'
}

/// Counts the whitespace-delimited words of `s`.
pub fn count_words(s: &str) -> (n: usize)
    ensures
        n == word_count(s@),
{
    let len = s.unicode_len();
    let mut n: usize = 0;
    let mut prev_ws: bool = true;
    let mut i: usize = 0;
    while i < len
        invariant
            i <= len,
            len == s@.len(),
            n == word_starts_upto(s@, i as int),
            prev_ws == (i == 0 || is_ws(s@[i - 1])),
        decreases len - i,
    {
        let c = s.get_char(i);
        proof {
            lemma_word_starts_upto_bound(s@, i as int);
        }
        if !is_whitespace_char(c) && prev_ws {
            n = n + 1;
        }
        prev_ws = is_whitespace_char(c);
        i = i + 1;
    }
    n
}

} // verus!

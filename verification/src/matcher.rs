//! Which paths a query selects.
//!
//! A query is a pattern of words set apart by whitespace. It selects a path
//! that contains every word, letter case aside; the words may stand in any
//! order and anywhere in the path. A query may also name a directory, and
//! then selects only paths that begin with it, letter case aside.

use crate::text::{
    begins_with, chars_of, contains, contains_text, is_space, lower_chars, lowercased,
    starts_with, string_of,
};
use vstd::prelude::*;

verus! {

/// The stretch `[from, to)` of `s` is a word: it is not empty, holds no
/// whitespace, and cannot be made longer at either end.
pub open spec fn is_word(s: Seq<char>, from: int, to: int) -> bool {
    &&& 0 <= from < to <= s.len()
    &&& forall|k: int| from <= k < to ==> !is_space(#[trigger] s[k])
    &&& (from == 0 || is_space(s[from - 1]))
    &&& (to == s.len() || is_space(s[to]))
}

/// The path contains every word of the pattern, letter case aside.
pub open spec fn has_all_words(path: Seq<char>, pattern: Seq<char>) -> bool {
    forall|from: int, to: int| #[trigger]
        is_word(pattern, from, to) ==> contains_text(
            lowercased(path),
            lowercased(pattern.subrange(from, to)),
        )
}

/// The path begins with the directory, letter case aside.
pub open spec fn is_under(path: Seq<char>, dir: Seq<char>) -> bool {
    begins_with(lowercased(path), lowercased(dir))
}

/// The query made of `pattern` and, if there is one, the directory `dir`
/// selects the path.
pub open spec fn selects(path: Seq<char>, pattern: Seq<char>, dir: Option<Seq<char>>) -> bool {
    &&& has_all_words(path, pattern)
    &&& dir matches Some(d) ==> is_under(path, d)
}

/// The stretch `[from, to)` is one of `spans`.
pub open spec fn listed(spans: Seq<(usize, usize)>, from: int, to: int) -> bool {
    exists|k: int| 0 <= k < spans.len() && is_span(#[trigger] spans[k], from, to)
}

/// The pair `span` stands for the stretch `[from, to)`.
pub open spec fn is_span(span: (usize, usize), from: int, to: int) -> bool {
    span.0 == from && span.1 == to
}

/// `word` is the lower-case form of a word of `pattern`.
pub open spec fn is_lower_word(word: Seq<char>, pattern: Seq<char>) -> bool {
    exists|from: int, to: int| #[trigger]
        is_word(pattern, from, to) && word == lowercased(pattern.subrange(from, to))
}

/// `word` is one of `words`.
pub open spec fn has_word(words: Seq<Vec<char>>, word: Seq<char>) -> bool {
    exists|k: int| 0 <= k < words.len() && (#[trigger] words[k])@ == word
}

/// `words` are the lower-case forms of the words of `pattern`, each at least
/// once and nothing else.
pub open spec fn are_words_of(words: Seq<Vec<char>>, pattern: Seq<char>) -> bool {
    &&& forall|k: int| 0 <= k < words.len() ==> is_lower_word((#[trigger] words[k])@, pattern)
    &&& forall|from: int, to: int| #[trigger]
        is_word(pattern, from, to) ==> has_word(words, lowercased(pattern.subrange(from, to)))
}

/// Every one of `words` stands somewhere in `hay`.
pub open spec fn holds_each(hay: Seq<char>, words: Seq<Vec<char>>) -> bool {
    forall|k: int| 0 <= k < words.len() ==> contains_text(hay, (#[trigger] words[k])@)
}

/// `spans` are the words of `s`, each once, from left to right.
pub open spec fn are_spans_of(spans: Seq<(usize, usize)>, s: Seq<char>) -> bool {
    &&& forall|k: int|
        0 <= k < spans.len() ==> is_word(s, (#[trigger] spans[k]).0 as int, spans[k].1 as int)
    &&& forall|k: int, l: int|
        0 <= k < l < spans.len() ==> (#[trigger] spans[k]).1 < (#[trigger] spans[l]).0
    &&& forall|from: int, to: int| #[trigger] is_word(s, from, to) ==> listed(spans, from, to)
}

/// `words` are the lower-case forms of the stretches `spans` of `pattern`, in
/// their order.
pub open spec fn are_lowered(
    words: Seq<Vec<char>>,
    spans: Seq<(usize, usize)>,
    pattern: Seq<char>,
) -> bool {
    &&& words.len() == spans.len()
    &&& forall|k: int|
        0 <= k < words.len() ==> (#[trigger] words[k])@ == lowercased(
            pattern.subrange(spans[k].0 as int, spans[k].1 as int),
        )
}

/// The words of `s`, from left to right, each as the stretch it fills.
pub fn word_spans(s: &Vec<char>) -> (spans: Vec<(usize, usize)>)
    ensures
        are_spans_of(spans@, s@),
{
    let mut spans: Vec<(usize, usize)> = Vec::new();
    let n = s.len();
    let mut i: usize = 0;
    let mut start: usize = 0;
    let mut in_word = false;
    while i < n
        invariant
            n == s.len(),
            i <= n,
            in_word ==> start < i,
            in_word ==> forall|k: int| start <= k < i ==> !is_space(#[trigger] s@[k]),
            in_word ==> start == 0 || is_space(s@[start - 1]),
            !in_word ==> i == 0 || is_space(s@[i - 1]),
            forall|k: int|
                0 <= k < spans.len() ==> is_word(
                    s@,
                    (#[trigger] spans[k]).0 as int,
                    spans[k].1 as int,
                ) && spans[k].1 < i,
            in_word ==> forall|k: int| 0 <= k < spans.len() ==> (#[trigger] spans[k]).1 < start,
            forall|k: int, l: int|
                0 <= k < l < spans.len() ==> (#[trigger] spans[k]).1 < (#[trigger] spans[l]).0,
            forall|from: int, to: int| #[trigger]
                is_word(s@, from, to) && to < i ==> listed(spans@, from, to),
        decreases n - i,
    {
        let ghost before = spans@;
        let space = s[i].is_whitespace();
        if space {
            if in_word {
                spans.push((start, i));
                in_word = false;
                assert(spans@[before.len() as int] == (start, i));
            }
        } else if !in_word {
            start = i;
            in_word = true;
        }
        assert forall|from: int, to: int| #[trigger]
            is_word(s@, from, to) && to < i + 1 implies listed(spans@, from, to) by {
            if to < i {
                assert(listed(before, from, to));
                let k = choose|k: int| 0 <= k < before.len() && is_span(#[trigger] before[k], from, to);
                assert(spans@[k] == before[k]);
            } else {
                assert(!is_space(s@[i - 1]));
                assert(space);
                if from < start {
                    assert(!is_space(s@[start - 1]));
                }
                if from > start {
                    assert(!is_space(s@[from - 1]));
                }
                assert(is_span(spans@[before.len() as int], from, to));
            }
        }
        i += 1;
    }
    let ghost before = spans@;
    if in_word {
        spans.push((start, n));
        assert(spans@[before.len() as int] == (start, n));
    }
    assert forall|from: int, to: int| #[trigger] is_word(s@, from, to) implies listed(
        spans@,
        from,
        to,
    ) by {
        if to < n {
            assert(listed(before, from, to));
            let k = choose|k: int| 0 <= k < before.len() && is_span(#[trigger] before[k], from, to);
            assert(spans@[k] == before[k]);
        } else {
            assert(!is_space(s@[n - 1]));
            if from < start {
                assert(!is_space(s@[start - 1]));
            }
            if from > start {
                assert(!is_space(s@[from - 1]));
            }
            assert(is_span(spans@[before.len() as int], from, to));
        }
    }
    spans
}

/// The lower-case forms of the words, in the order of the words, are the
/// lower-case words of the pattern.
pub proof fn lemma_lowered_are_words(
    words: Seq<Vec<char>>,
    spans: Seq<(usize, usize)>,
    pattern: Seq<char>,
)
    requires
        are_spans_of(spans, pattern),
        are_lowered(words, spans, pattern),
    ensures
        are_words_of(words, pattern),
{
    assert forall|j: int| 0 <= j < words.len() implies is_lower_word(
        (#[trigger] words[j])@,
        pattern,
    ) by {
        assert(is_word(pattern, spans[j].0 as int, spans[j].1 as int));
    }
    assert forall|from: int, to: int| #[trigger] is_word(pattern, from, to) implies has_word(
        words,
        lowercased(pattern.subrange(from, to)),
    ) by {
        assert(listed(spans, from, to));
        let j = choose|j: int| 0 <= j < spans.len() && is_span(#[trigger] spans[j], from, to);
        assert(words[j]@ == lowercased(pattern.subrange(from, to)));
    }
}

/// The words of `pattern` in lower case, from left to right.
pub fn lower_words(pattern: &str) -> (words: Vec<Vec<char>>)
    ensures
        exists|spans: Seq<(usize, usize)>| #[trigger]
            are_spans_of(spans, pattern@) && are_lowered(words@, spans, pattern@),
        are_words_of(words@, pattern@),
{
    let chars = chars_of(pattern);
    let spans = word_spans(&chars);
    let mut words: Vec<Vec<char>> = Vec::new();
    let mut k: usize = 0;
    while k < spans.len()
        invariant
            chars@ == pattern@,
            k <= spans.len(),
            words.len() == k,
            are_spans_of(spans@, chars@),
            forall|j: int|
                0 <= j < k ==> (#[trigger] words[j])@ == lowercased(
                    chars@.subrange(spans[j].0 as int, spans[j].1 as int),
                ),
        decreases spans.len() - k,
    {
        let (from, to) = spans[k];
        let word = string_of(&chars, from, to);
        words.push(lower_chars(word.as_str()));
        k += 1;
    }
    proof {
        assert(are_lowered(words@, spans@, pattern@));
        lemma_lowered_are_words(words@, spans@, pattern@);
    }
    words
}

/// Tests whether every one of `words` stands somewhere in `hay`.
pub fn contains_each(hay: &Vec<char>, words: &Vec<Vec<char>>) -> (b: bool)
    ensures
        b == holds_each(hay@, words@),
{
    let mut k: usize = 0;
    while k < words.len()
        invariant
            k <= words.len(),
            forall|j: int| 0 <= j < k ==> contains_text(hay@, (#[trigger] words[j])@),
        decreases words.len() - k,
    {
        if !contains(hay, &words[k]) {
            return false;
        }
        k += 1;
    }
    true
}

/// Tests one path, already in lower case, against a query whose words and
/// directory are in lower case too.
pub fn accepts(path: &Vec<char>, words: &Vec<Vec<char>>, dir: &Option<Vec<char>>) -> (b: bool)
    ensures
        b == (holds_each(path@, words@) && (dir matches Some(d) ==> begins_with(path@, d@))),
{
    let under = match dir {
        Some(d) => starts_with(path, d),
        None => true,
    };
    under && contains_each(path, words)
}

/// From the words of a pattern to the pattern: a path in lower case holds
/// each of the words exactly if the path has all words of the pattern.
pub proof fn lemma_words_decide(path: Seq<char>, pattern: Seq<char>, words: Seq<Vec<char>>)
    requires
        are_words_of(words, pattern),
    ensures
        holds_each(lowercased(path), words) == has_all_words(path, pattern),
{
    if holds_each(lowercased(path), words) {
        assert forall|from: int, to: int| #[trigger] is_word(pattern, from, to) implies contains_text(
            lowercased(path),
            lowercased(pattern.subrange(from, to)),
        ) by {
            assert(has_word(words, lowercased(pattern.subrange(from, to))));
            let k = choose|k: int|
                0 <= k < words.len() && (#[trigger] words[k])@ == lowercased(
                    pattern.subrange(from, to),
                );
            assert(contains_text(lowercased(path), words[k]@));
        }
    }
    if has_all_words(path, pattern) {
        assert forall|k: int| 0 <= k < words.len() implies contains_text(
            lowercased(path),
            (#[trigger] words[k])@,
        ) by {
            assert(is_lower_word(words[k]@, pattern));
            let (from, to) = choose|from: int, to: int| #[trigger]
                is_word(pattern, from, to) && words[k]@ == lowercased(pattern.subrange(from, to));
            assert(is_word(pattern, from, to));
        }
    }
}

/// A pattern without a word selects every path, whatever the path holds.
pub proof fn lemma_empty_pattern_selects_all(path: Seq<char>, pattern: Seq<char>)
    requires
        forall|k: int| 0 <= k < pattern.len() ==> is_space(#[trigger] pattern[k]),
    ensures
        selects(path, pattern, None),
{
    assert forall|from: int, to: int| #[trigger] is_word(pattern, from, to) implies contains_text(
        lowercased(path),
        lowercased(pattern.subrange(from, to)),
    ) by {
        assert(is_space(pattern[from]));
    }
}

/// Letter case in the path does not matter: two paths with one lower-case
/// form are selected by the same queries.
pub proof fn lemma_case_of_path_ignored(
    a: Seq<char>,
    b: Seq<char>,
    pattern: Seq<char>,
    dir: Option<Seq<char>>,
)
    requires
        lowercased(a) == lowercased(b),
    ensures
        selects(a, pattern, dir) == selects(b, pattern, dir),
{
    if selects(a, pattern, dir) {
        assert forall|from: int, to: int| #[trigger] is_word(pattern, from, to) implies contains_text(
            lowercased(b),
            lowercased(pattern.subrange(from, to)),
        ) by {}
    }
    if selects(b, pattern, dir) {
        assert forall|from: int, to: int| #[trigger] is_word(pattern, from, to) implies contains_text(
            lowercased(a),
            lowercased(pattern.subrange(from, to)),
        ) by {}
    }
}

} // verus!

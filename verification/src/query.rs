//! The full-text search query built from what the user types.
use vstd::prelude::*;
use crate::text::{is_white, skip_white, join_seq, views, lemma_skip_white_bounds, lemma_skip_white_stops, chars_of, string_of, is_white_char, push_char, join_strings};
use crate::paths::slice_chars;

verus! {

/// The end of the word of `s` that starts at `i`: the first index from `i` on
/// that holds white space, or the length of `s`.
pub open spec fn word_end(s: Seq<char>, i: int) -> int
    decreases s.len() - i,
{
    if 0 <= i < s.len() && !is_white(s[i]) {
        word_end(s, i + 1)
    } else {
        i
    }
}

/// `word_end` stays within `[i, len]`.
pub proof fn lemma_word_end_bounds(s: Seq<char>, i: int)
    requires
        0 <= i <= s.len(),
    ensures
        i <= word_end(s, i) <= s.len(),
    decreases s.len() - i,
{
    if i < s.len() && !is_white(s[i]) {
        lemma_word_end_bounds(s, i + 1);
    }
}

/// `word_end` stops at white space or at the end, past characters that are not white space.
pub proof fn lemma_word_end_stops(s: Seq<char>, i: int)
    requires
        0 <= i <= s.len(),
    ensures
        word_end(s, i) < s.len() ==> is_white(s[word_end(s, i)]),
        forall|k: int| i <= k < word_end(s, i) ==> !is_white(#[trigger] s[k]),
    decreases s.len() - i,
{
    if i < s.len() && !is_white(s[i]) {
        lemma_word_end_stops(s, i + 1);
    }
}

/// The words of `s[i..]`: its maximal runs of characters that are not white
/// space, in order (`str::split_whitespace`).
pub open spec fn words_from(s: Seq<char>, i: int) -> Seq<Seq<char>>
    decreases s.len() - i,
{
    if i < 0 || i > s.len() {
        Seq::empty()
    } else {
        let a = skip_white(s, i);
        if a >= s.len() {
            Seq::empty()
        } else {
            proof {
                lemma_skip_white_bounds(s, i);
                lemma_skip_white_stops(s, i);
                lemma_word_end_bounds(s, a + 1);
            }
            let e = word_end(s, a);
            seq![s.subrange(a, e)] + words_from(s, e)
        }
    }
}

/// The words of `s`.
pub open spec fn words(s: Seq<char>) -> Seq<Seq<char>> {
    words_from(s, 0)
}

/// The characters of `s` that are not white space, in order.
pub open spec fn non_white(s: Seq<char>) -> Seq<char>
    decreases s.len(),
{
    if s.len() == 0 {
        Seq::empty()
    } else if is_white(s[0]) {
        non_white(s.skip(1))
    } else {
        seq![s[0]] + non_white(s.skip(1))
    }
}

/// The sequences of `ws` laid end to end.
pub open spec fn concat_words(ws: Seq<Seq<char>>) -> Seq<char>
    decreases ws.len(),
{
    if ws.len() == 0 {
        Seq::empty()
    } else {
        ws[0] + concat_words(ws.skip(1))
    }
}

/// Whether a word of `s` begins at `j`: `s[j]` is not white space and is the
/// first character or follows white space.
pub open spec fn starts_word(s: Seq<char>, j: int) -> bool {
    0 <= j < s.len() && !is_white(s[j]) && (j == 0 || is_white(s[j - 1]))
}

/// How many words of `s` begin at an index from `i` on.
pub open spec fn word_starts_from(s: Seq<char>, i: int) -> nat
    decreases s.len() - i,
{
    if i < 0 || i >= s.len() {
        0
    } else {
        (if starts_word(s, i) { 1nat } else { 0nat }) + word_starts_from(s, i + 1)
    }
}

proof fn lemma_non_white_skips_white(s: Seq<char>, i: int)
    requires
        0 <= i <= s.len(),
    ensures
        non_white(s.skip(i)) == non_white(s.skip(skip_white(s, i))),
    decreases s.len() - i,
{
    if i < s.len() && is_white(s[i]) {
        assert(s.skip(i).skip(1) =~= s.skip(i + 1));
        lemma_non_white_skips_white(s, i + 1);
    }
}

proof fn lemma_non_white_word(s: Seq<char>, a: int)
    requires
        0 <= a <= s.len(),
    ensures
        non_white(s.skip(a)) == s.subrange(a, word_end(s, a)) + non_white(s.skip(word_end(s, a))),
    decreases s.len() - a,
{
    if a < s.len() && !is_white(s[a]) {
        assert(s.skip(a).skip(1) =~= s.skip(a + 1));
        lemma_non_white_word(s, a + 1);
        lemma_word_end_bounds(s, a + 1);
        assert(seq![s[a]] + s.subrange(a + 1, word_end(s, a)) =~= s.subrange(a, word_end(s, a)));
        assert(non_white(s.skip(a)) =~= seq![s[a]] + non_white(s.skip(a + 1)));
    } else {
        assert(s.subrange(a, a) =~= Seq::<char>::empty());
    }
}

proof fn lemma_no_word_starts(s: Seq<char>, i: int, k: int)
    requires
        0 <= i <= k <= s.len(),
        forall|j: int| i <= j < k ==> !#[trigger] starts_word(s, j),
    ensures
        word_starts_from(s, i) == word_starts_from(s, k),
    decreases k - i,
{
    if i < k {
        lemma_no_word_starts(s, i + 1, k);
    }
}

proof fn lemma_words_from_cover(s: Seq<char>, i: int)
    requires
        0 <= i <= s.len(),
        i == 0 || i == s.len() || is_white(s[i - 1]) || is_white(s[i]),
    ensures
        concat_words(words_from(s, i)) == non_white(s.skip(i)),
        words_from(s, i).len() == word_starts_from(s, i),
        forall|k: int| 0 <= k < words_from(s, i).len() ==> (#[trigger] words_from(s, i)[k]).len() > 0
            && forall|j: int| 0 <= j < words_from(s, i)[k].len() ==> !is_white(words_from(s, i)[k][j]),
    decreases s.len() - i,
{
    let a = skip_white(s, i);
    lemma_skip_white_bounds(s, i);
    lemma_skip_white_stops(s, i);
    lemma_non_white_skips_white(s, i);
    assert forall|j: int| i <= j < a implies !#[trigger] starts_word(s, j) by {
        assert(is_white(s[j]));
    }
    lemma_no_word_starts(s, i, a);
    if a >= s.len() {
        assert(s.skip(a) =~= Seq::<char>::empty());
        assert(words_from(s, i) =~= Seq::<Seq<char>>::empty());
    } else {
        let e = word_end(s, a);
        lemma_word_end_bounds(s, a + 1);
        lemma_word_end_stops(s, a);
        lemma_non_white_word(s, a);
        let ws = words_from(s, i);
        assert(ws =~= seq![s.subrange(a, e)] + words_from(s, e));
        assert(ws.skip(1) =~= words_from(s, e));
        lemma_words_from_cover(s, e);
        assert(starts_word(s, a)) by {
            if a > i {
                assert(is_white(s[a - 1]));
            }
        }
        assert forall|j: int| a + 1 <= j < e implies !#[trigger] starts_word(s, j) by {
            assert(!is_white(s[j - 1]));
        }
        lemma_no_word_starts(s, a + 1, e);
        assert forall|k: int| 0 <= k < ws.len() implies (#[trigger] ws[k]).len() > 0
            && forall|j: int| 0 <= j < ws[k].len() ==> !is_white(ws[k][j]) by {
            if k > 0 {
                assert(ws[k] == words_from(s, e)[k - 1]);
            } else {
                assert forall|j: int| 0 <= j < ws[k].len() implies !is_white(ws[k][j]) by {
                    assert(ws[k][j] == s[a + j]);
                }
            }
        }
    }
}

/// The words of `s` are exactly its words as white space separates them, none
/// dropped: there are as many as there are places in `s` where a word begins,
/// each is non-empty and holds no white space, and laid end to end they give
/// every character of `s` that is not white space, in order.
pub proof fn lemma_words_cover(s: Seq<char>)
    ensures
        words(s).len() == word_starts_from(s, 0),
        concat_words(words(s)) == non_white(s),
        forall|k: int| 0 <= k < words(s).len() ==> (#[trigger] words(s)[k]).len() > 0
            && forall|j: int| 0 <= j < words(s)[k].len() ==> !is_white(words(s)[k][j]),
{
    lemma_words_from_cover(s, 0);
    assert(s.skip(0) =~= s);
}

/// Each word made a prefix search: the word followed by `*`.
pub open spec fn prefix_terms(ws: Seq<Seq<char>>) -> Seq<Seq<char>> {
    ws.map_values(|w: Seq<char>| w.push('*'))
}

/// The text `" AND "`.
pub open spec fn and_sep() -> Seq<char> {
    seq![' ', 'A', 'N', 'D', ' ']
}

/// The search query for `input`: every word of it followed by `*`, joined with
/// `" AND "`; no words give the empty query.
pub fn build_search_query(input: &str) -> (r: String)
    ensures
        r@ == join_seq(prefix_terms(words(input@)), and_sep()),
{
    let s = chars_of(input);
    let ghost sv = s@;
    let mut parts: Vec<String> = Vec::new();
    let mut i: usize = 0;
    proof {
        lemma_skip_white_bounds(sv, 0);
    }
    while i < s.len()
        invariant
            sv == s@,
            sv == input@,
            i <= s@.len(),
            words(sv) =~= words_from(sv, 0),
            prefix_terms(words(sv)) =~= views(parts@) + prefix_terms(words_from(sv, i as int)),
        decreases s.len() - i,
    {
        let mut a: usize = i;
        while a < s.len() && is_white_char(s[a])
            invariant
                i <= a <= s@.len(),
                sv == s@,
                skip_white(sv, a as int) == skip_white(sv, i as int),
            decreases s.len() - a,
        {
            a = a + 1;
        }
        if a >= s.len() {
            assert(words_from(sv, i as int) =~= Seq::<Seq<char>>::empty());
            assert(words_from(sv, a as int) =~= Seq::<Seq<char>>::empty());
            i = a;
        } else {
            let mut e: usize = a;
            while e < s.len() && !is_white_char(s[e])
                invariant
                    a <= e <= s@.len(),
                    sv == s@,
                    word_end(sv, e as int) == word_end(sv, a as int),
                decreases s.len() - e,
            {
                e = e + 1;
            }
            let w = slice_chars(s.as_slice(), a, e);
            let mut term = string_of(w.as_slice());
            push_char(&mut term, '*');
            let ghost before = views(parts@);
            parts.push(term);
            proof {
                let ws = words_from(sv, i as int);
                assert(ws =~= seq![sv.subrange(a as int, e as int)] + words_from(sv, e as int));
                assert(prefix_terms(ws) =~= seq![sv.subrange(a as int, e as int).push('*')]
                    + prefix_terms(words_from(sv, e as int)));
                assert(views(parts@) =~= before.push(sv.subrange(a as int, e as int).push('*')));
            }
            i = e;
        }
    }
    proof {
        assert(words_from(sv, i as int) =~= Seq::<Seq<char>>::empty());
        assert(views(parts@) + prefix_terms(Seq::<Seq<char>>::empty()) =~= views(parts@));
    }
    let sep = " AND ";
    proof {
        reveal_strlit(" AND ");
        assert(sep@ =~= and_sep());
    }
    join_strings(parts.as_slice(), sep)
}

} // verus!

//! Text shown on cards and in settings, and which cards belong to a numbered group.
use vstd::prelude::*;
use crate::models::MediaItem;
use crate::text::{decimal, join_seq, views, lowercase, chars_of, string_of, push_char, push_str, join_strings, decimal_string, to_lowercase};
use crate::paths::{parent_text, file_stem_chars, parent_chars};
use crate::file_helpers::{base_of, stem_or_empty, parse_suffix_number, group_members, same_group};
use std::collections::HashSet;
use std::sync::Arc;

verus! {

/// The text `" · "` that separates values on a card.
pub open spec fn dot_sep() -> Seq<char> {
    seq![' ', '\u{b7}', ' ']
}

/// The line shown when hovering a card: up to three characters joined with
/// `" · "`, followed by `" +<n>"` for the `n` characters left out; or, for a
/// file without characters, `"<copyright> · <artist>"`.
pub open spec fn hover_text(copyright: Seq<char>, artist: Seq<char>, characters: Seq<Seq<char>>) -> Seq<char> {
    if characters.len() == 0 {
        copyright + dot_sep() + artist
    } else if characters.len() <= 3 {
        join_seq(characters, dot_sep())
    } else {
        join_seq(characters.take(3), dot_sep()) + seq![' ', '+'] + decimal((characters.len() - 3) as nat)
    }
}

/// The hover line of a library card (see [`hover_text`]).
pub fn hover_meta(item: &MediaItem) -> (r: String)
    ensures
        r@ == hover_text(item.copyright@, item.artist@, views(item.characters@)),
{
    let sep = " \u{b7} ";
    proof {
        reveal_strlit(" \u{b7} ");
        assert(sep@ =~= dot_sep());
    }
    let n = item.characters.len();
    if n > 0 {
        let shown = if n <= 3 {
            n
        } else {
            3
        };
        let mut first: Vec<String> = Vec::new();
        let mut i: usize = 0;
        while i < shown
            invariant
                i <= shown <= item.characters@.len(),
                first@.len() == i,
                forall|k: int| 0 <= k < i ==> #[trigger] first@[k] == item.characters@[k],
            decreases shown - i,
        {
            first.push(item.characters[i].clone());
            i = i + 1;
        }
        assert(views(first@) =~= views(item.characters@).take(shown as int));
        let mut s = join_strings(first.as_slice(), sep);
        if n > 3 {
            push_char(&mut s, ' ');
            push_char(&mut s, '+');
            let d = decimal_string((n - 3) as u64);
            push_str(&mut s, d.as_str());
            assert(s@ =~= hover_text(item.copyright@, item.artist@, views(item.characters@)));
        } else {
            assert(views(item.characters@).take(shown as int) =~= views(item.characters@));
        }
        s
    } else {
        let mut s = item.copyright.clone();
        push_str(&mut s, sep);
        push_str(&mut s, item.artist.as_str());
        s
    }
}

/// The label of a folder depth in the settings: `"Level <depth + 1>"` for the
/// six offered depths, `"Level 1"` for any other.
pub open spec fn depth_label(depth: nat) -> Seq<char> {
    seq!['L', 'e', 'v', 'e', 'l', ' '] + decimal(if depth < 6 { depth + 1 } else { 1 })
}

/// The label shown for a folder depth (see [`depth_label`]).
pub fn depth_to_label(depth: usize) -> (r: &'static str)
    ensures
        r@ == depth_label(depth as nat),
{
    proof {
        reveal_strlit("Level 1");
        reveal_strlit("Level 2");
        reveal_strlit("Level 3");
        reveal_strlit("Level 4");
        reveal_strlit("Level 5");
        reveal_strlit("Level 6");
    }
    let r = if depth == 1 {
        "Level 2"
    } else if depth == 2 {
        "Level 3"
    } else if depth == 3 {
        "Level 4"
    } else if depth == 4 {
        "Level 5"
    } else if depth == 5 {
        "Level 6"
    } else {
        "Level 1"
    };
    assert(r@ =~= depth_label(depth as nat));
    r
}

/// `n / d` rounded to the nearest integer, halves to the even neighbour.
pub open spec fn round_half_even(n: nat, d: nat) -> nat
    recommends
        d > 0,
{
    let q = n / d;
    let r = n % d;
    if 2 * r > d {
        q + 1
    } else if 2 * r < d {
        q
    } else if q % 2 == 0 {
        q
    } else {
        q + 1
    }
}

/// A byte count for humans: `"<x.y> MB"` from one mebibyte on, `"<x> KB"`
/// from one kibibyte on, `"<n> B"` below; the value is rounded to one decimal
/// (MB) or to a whole number (KB), halves to even.
pub open spec fn human_bytes(b: nat) -> Seq<char> {
    if b >= 1048576 {
        let t = round_half_even(b * 10, 1048576);
        decimal(t / 10) + seq!['.'] + decimal(t % 10) + seq![' ', 'M', 'B']
    } else if b >= 1024 {
        decimal(round_half_even(b, 1024)) + seq![' ', 'K', 'B']
    } else {
        decimal(b) + seq![' ', 'B']
    }
}

/// `n / d` rounded halves to even, computed.
fn div_round_half_even(n: u128, d: u128) -> (r: u128)
    requires
        0 < d < u128::MAX / 4,
        n < u128::MAX / 4,
    ensures
        r == round_half_even(n as nat, d as nat),
        r <= n / d + 1,
{
    let q = n / d;
    let rem = n % d;
    if 2 * rem > d {
        q + 1
    } else if 2 * rem < d {
        q
    } else if q % 2 == 0 {
        q
    } else {
        q + 1
    }
}

/// A byte count as shown with a download (see [`human_bytes`]).
pub fn bytes_human(b: u64) -> (r: String)
    ensures
        r@ == human_bytes(b as nat),
{
    if b >= 1048576 {
        let n: u128 = (b as u128) * 10;
        let t = div_round_half_even(n, 1048576);
        assert(t / 10 <= b);
        let mut s = decimal_string((t / 10) as u64);
        push_char(&mut s, '.');
        let f = decimal_string((t % 10) as u64);
        push_str(&mut s, f.as_str());
        push_char(&mut s, ' ');
        push_char(&mut s, 'M');
        push_char(&mut s, 'B');
        assert(s@ =~= human_bytes(b as nat));
        s
    } else if b >= 1024 {
        let t = div_round_half_even(b as u128, 1024);
        let mut s = decimal_string(t as u64);
        push_char(&mut s, ' ');
        push_char(&mut s, 'K');
        push_char(&mut s, 'B');
        assert(s@ =~= human_bytes(b as nat));
        s
    } else {
        let mut s = decimal_string(b);
        push_char(&mut s, ' ');
        push_char(&mut s, 'B');
        assert(s@ =~= human_bytes(b as nat));
        s
    }
}

/// The key under which cards are grouped: the lowercased folder, `|`, and the
/// lowercased base of the stem.
pub open spec fn card_group_key(p: Seq<char>) -> Seq<char> {
    lowercase(parent_text(p)) + seq!['|'] + lowercase(base_of(stem_or_empty(p)))
}

/// Whether the card at index `i` shares its group key with another card.
pub open spec fn in_card_group(paths: Seq<Seq<char>>, i: int) -> bool {
    exists|j: int|
        0 <= j < paths.len() && j != i && #[trigger] card_group_key(paths[j]) == card_group_key(
            paths[i],
        )
}

/// The paths of a sequence of items.
pub open spec fn item_paths(items: Seq<Arc<MediaItem>>) -> Seq<Seq<char>> {
    items.map_values(|a: Arc<MediaItem>| a.path@)
}

/// The group key of a card, computed.
fn card_key_of(p: &str) -> (r: String)
    ensures
        r@ == card_group_key(p@),
{
    let pc = chars_of(p);
    let dir = to_lowercase(string_of(parent_chars(pc.as_slice()).as_slice()).as_str());
    let stem = match file_stem_chars(pc.as_slice()) {
        Some(s) => string_of(s.as_slice()),
        None => String::new(),
    };
    let base = match parse_suffix_number(stem.as_str()) {
        Some((b, _)) => b,
        None => stem,
    };
    let mut k = dir;
    push_char(&mut k, '|');
    push_str(&mut k, to_lowercase(base.as_str()).as_str());
    k
}

/// The indices of the cards that belong to a numbered group: those whose
/// group key (see [`card_group_key`]) another card shares.
pub fn build_group_set(items: &[Arc<MediaItem>]) -> (r: HashSet<usize>)
    ensures
        forall|i: usize| #[trigger] r@.contains(i) <==> (i < items@.len() && in_card_group(item_paths(items@), i as int)),
{
    broadcast use vstd::std_specs::hash::group_hash_axioms;

    let ghost ps = item_paths(items@);
    let mut keys: Vec<String> = Vec::new();
    let mut i: usize = 0;
    while i < items.len()
        invariant
            i <= items@.len(),
            ps == item_paths(items@),
            keys@.len() == i,
            forall|k: int| 0 <= k < i ==> #[trigger] keys@[k]@ == card_group_key(ps[k]),
        decreases items.len() - i,
    {
        keys.push(card_key_of(items[i].path.as_str()));
        i = i + 1;
    }
    let mut set: HashSet<usize> = HashSet::new();
    let mut i: usize = 0;
    while i < keys.len()
        invariant
            i <= keys@.len(),
            keys@.len() == items@.len(),
            ps == item_paths(items@),
            forall|k: int| 0 <= k < keys@.len() ==> #[trigger] keys@[k]@ == card_group_key(ps[k]),
            forall|x: usize| #[trigger] set@.contains(x) <==> (x < i && in_card_group(ps, x as int)),
        decreases keys.len() - i,
    {
        let mut j: usize = 0;
        let mut found = false;
        while j < keys.len()
            invariant
                j <= keys@.len(),
                i < keys@.len(),
                keys@.len() == items@.len(),
                ps == item_paths(items@),
                forall|k: int| 0 <= k < keys@.len() ==> #[trigger] keys@[k]@ == card_group_key(ps[k]),
                found ==> in_card_group(ps, i as int),
                !found ==> forall|k: int|
                    0 <= k < j && k != i ==> #[trigger] card_group_key(ps[k]) != card_group_key(ps[i as int]),
            decreases keys.len() - j,
        {
            if j != i && keys[j] == keys[i] {
                assert(card_group_key(ps[j as int]) == card_group_key(ps[i as int]));
                found = true;
            }
            j = j + 1;
        }
        if found {
            set.insert(i);
        }
        i = i + 1;
    }
    set
}

/// Filtering keeps at most one element when every element but the one at `i` fails.
proof fn lemma_filter_at_most_one(s: Seq<Arc<MediaItem>>, f: spec_fn(Arc<MediaItem>) -> bool, i: int)
    requires
        forall|j: int| 0 <= j < s.len() && j != i ==> !f(#[trigger] s[j]),
    ensures
        s.filter(f).len() <= 1,
    decreases s.len(),
{
    reveal(Seq::filter);
    if s.len() > 0 {
        let rest = s.drop_last();
        if i == s.len() - 1 {
            assert forall|j: int| 0 <= j < rest.len() implies !f(#[trigger] rest[j]) by {
                assert(rest[j] == s[j]);
            }
            assert(rest.all(|a: Arc<MediaItem>| !f(a))) by {
                assert forall|j: int| 0 <= j < rest.len() implies !f(#[trigger] rest[j]) by {}
            }
            rest.lemma_all_neg_filter_empty(f);
        } else {
            assert forall|j: int| 0 <= j < rest.len() && j != i implies !f(#[trigger] rest[j]) by {
                assert(rest[j] == s[j]);
            }
            lemma_filter_at_most_one(rest, f, i);
            assert(!f(s[s.len() - 1]));
        }
    }
}

/// A file whose reorder group (see [`group_members`]) holds at least two
/// files is shown as a grouped card.
pub proof fn lemma_reorder_group_is_marked(all: Seq<Arc<MediaItem>>, i: int)
    requires
        0 <= i < all.len(),
        group_members(all[i].path@, all).len() >= 2,
    ensures
        in_card_group(item_paths(all), i),
{
    let pi = all[i].path@;
    let f = |a: Arc<MediaItem>| same_group(pi, a.path@);
    if forall|j: int| 0 <= j < all.len() && j != i ==> !f(#[trigger] all[j]) {
        lemma_filter_at_most_one(all, f, i);
        assert(false);
    }
    let j = choose|j: int| 0 <= j < all.len() && j != i && f(#[trigger] all[j]);
    let pj = all[j].path@;
    assert(same_group(pi, pj));
    assert(item_paths(all)[j] == pj);
    assert(item_paths(all)[i] == pi);
    assert(card_group_key(pj) == card_group_key(pi));
}

/// What the search box reports after a frame: whether its text changed, and
/// whether it was cleared with its clear button.
#[derive(Clone, Copy, Debug)]
pub struct SearchInputResponse {
    pub changed: bool,
    pub cleared: bool,
}

} // verus!

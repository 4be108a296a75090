//! The state of the metadata dialog, used both to edit a library file and to
//! distribute a staging file into the library.
use vstd::prelude::*;
use crate::models::{AutocompleteData, MediaItem, MediaModalMode, StagingItem};
use crate::text::{trimmed, lowercase, contains_seq, views, chars_of, trim_chars, string_of, to_lowercase, contains_chars, trim_str, contains_string};
use std::sync::Arc;

verus! {

/// The most suggestions a completion list shows.
pub const MAX_SUGG: usize = 8;

/// The fields and completion lists of the metadata dialog.
pub struct MediaModalState {
    pub mode: Option<MediaModalMode>,
    pub copyright: String,
    pub artist: String,
    pub characters: Vec<String>,
    pub chars_input: String,
    pub tags: Vec<String>,
    pub tags_input: String,
    pub video_title: String,
    pub copyright_suggestions: Vec<String>,
    pub artist_suggestions: Vec<String>,
    pub char_suggestions: Vec<String>,
    pub tag_suggestions: Vec<String>,
    pub copyright_popup: bool,
    pub artist_popup: bool,
    pub chars_popup: bool,
    pub tags_popup: bool,
    pub error: Option<String>,
}

impl MediaModalState {
    /// Whether the fields that a user types are all empty, no popup is open and
    /// no error is shown.
    pub open spec fn inputs_cleared(&self) -> bool {
        &&& self.chars_input@.len() == 0
        &&& self.tags_input@.len() == 0
        &&& self.video_title@.len() == 0
        &&& !self.copyright_popup
        &&& !self.artist_popup
        &&& !self.chars_popup
        &&& !self.tags_popup
        &&& self.error is None
    }

    /// Whether the state is the closed, empty dialog.
    pub open spec fn is_blank(&self) -> bool {
        &&& self.mode is None
        &&& self.copyright@.len() == 0
        &&& self.artist@.len() == 0
        &&& self.characters@.len() == 0
        &&& self.tags@.len() == 0
        &&& self.copyright_suggestions@.len() == 0
        &&& self.artist_suggestions@.len() == 0
        &&& self.char_suggestions@.len() == 0
        &&& self.tag_suggestions@.len() == 0
        &&& self.inputs_cleared()
    }

    /// Whether the completion lists are those of `ac`.
    pub open spec fn suggests(&self, ac: AutocompleteData) -> bool {
        &&& views(self.copyright_suggestions@) == views(ac.copyrights@)
        &&& views(self.artist_suggestions@) == views(ac.artists@)
        &&& views(self.char_suggestions@) == views(ac.characters@)
        &&& views(self.tag_suggestions@) == views(ac.tags@)
    }

    /// Whether the dialog may be confirmed: copyright and artist are both filled in.
    pub open spec fn valid(&self) -> bool {
        trimmed(self.copyright@).len() > 0 && trimmed(self.artist@).len() > 0
    }

    /// The closed, empty dialog.
    pub fn blank() -> (r: Self)
        ensures
            r.is_blank(),
    {
        MediaModalState {
            mode: None,
            copyright: String::new(),
            artist: String::new(),
            characters: Vec::new(),
            chars_input: String::new(),
            tags: Vec::new(),
            tags_input: String::new(),
            video_title: String::new(),
            copyright_suggestions: Vec::new(),
            artist_suggestions: Vec::new(),
            char_suggestions: Vec::new(),
            tag_suggestions: Vec::new(),
            copyright_popup: false,
            artist_popup: false,
            chars_popup: false,
            tags_popup: false,
            error: None,
        }
    }

    /// Opens the dialog to edit `item`: its copyright, artist, characters and
    /// tags fill the fields, the completion lists are those of `autocomplete`,
    /// and everything else starts empty.
    pub fn open_edit(&mut self, item: Arc<MediaItem>, autocomplete: &AutocompleteData)
        ensures
            final(self).mode == Some(MediaModalMode::Edit(item)),
            final(self).copyright@ == item.copyright@,
            final(self).artist@ == item.artist@,
            views(final(self).characters@) == views(item.characters@),
            views(final(self).tags@) == views(item.tags@),
            final(self).suggests(*autocomplete),
            final(self).inputs_cleared(),
    {
        let copyright = item.copyright.clone();
        let artist = item.artist.clone();
        let characters = clone_strings(&item.characters);
        let tags = clone_strings(&item.tags);
        *self = Self::blank();
        self.copyright = copyright;
        self.artist = artist;
        self.characters = characters;
        self.tags = tags;
        self.copyright_suggestions = clone_strings(&autocomplete.copyrights);
        self.artist_suggestions = clone_strings(&autocomplete.artists);
        self.char_suggestions = clone_strings(&autocomplete.characters);
        self.tag_suggestions = clone_strings(&autocomplete.tags);
        self.mode = Some(MediaModalMode::Edit(item));
    }

    /// Opens the dialog to distribute `item`: the fields start empty and the
    /// completion lists are those of `autocomplete`.
    pub fn open_distribute(&mut self, item: Arc<StagingItem>, autocomplete: &AutocompleteData)
        ensures
            final(self).mode == Some(MediaModalMode::Distribute(item)),
            final(self).copyright@.len() == 0,
            final(self).artist@.len() == 0,
            final(self).characters@.len() == 0,
            final(self).tags@.len() == 0,
            final(self).suggests(*autocomplete),
            final(self).inputs_cleared(),
    {
        *self = Self::blank();
        self.copyright_suggestions = clone_strings(&autocomplete.copyrights);
        self.artist_suggestions = clone_strings(&autocomplete.artists);
        self.char_suggestions = clone_strings(&autocomplete.characters);
        self.tag_suggestions = clone_strings(&autocomplete.tags);
        self.mode = Some(MediaModalMode::Distribute(item));
    }

    /// Opens the dialog to distribute the next file of a queue, keeping the
    /// copyright, artist, characters and tags entered for the previous one.
    pub fn open_next_distribute(&mut self, item: Arc<StagingItem>, autocomplete: &AutocompleteData)
        ensures
            final(self).mode == Some(MediaModalMode::Distribute(item)),
            final(self).copyright@ == old(self).copyright@,
            final(self).artist@ == old(self).artist@,
            views(final(self).characters@) == views(old(self).characters@),
            views(final(self).tags@) == views(old(self).tags@),
            final(self).suggests(*autocomplete),
            final(self).inputs_cleared(),
    {
        let copyright = self.copyright.clone();
        let artist = self.artist.clone();
        let characters = clone_strings(&self.characters);
        let tags = clone_strings(&self.tags);
        self.open_distribute(item, autocomplete);
        self.copyright = copyright;
        self.artist = artist;
        self.characters = characters;
        self.tags = tags;
    }

    /// Closes the dialog and clears it.
    pub fn close(&mut self)
        ensures
            final(self).is_blank(),
    {
        *self = Self::blank();
    }

    /// Whether the dialog is open.
    pub fn is_open(&self) -> (r: bool)
        ensures
            r == self.mode is Some,
    {
        self.mode.is_some()
    }

    /// Whether the dialog may be confirmed: neither copyright nor artist is
    /// empty once trimmed.
    pub fn is_valid(&self) -> (r: bool)
        ensures
            r == self.valid(),
    {
        let c = trim_str(self.copyright.as_str());
        let a = trim_str(self.artist.as_str());
        chars_of(c.as_str()).len() > 0 && chars_of(a.as_str()).len() > 0
    }
}

impl Default for MediaModalState {
    /// The closed, empty dialog.
    fn default() -> (r: Self)
        ensures
            r.is_blank(),
    {
        Self::blank()
    }
}

/// A dialog whose copyright or artist is empty cannot be confirmed; in
/// particular one just opened for a distribution cannot.
pub proof fn lemma_empty_field_invalid(st: MediaModalState)
    requires
        st.copyright@.len() == 0 || st.artist@.len() == 0,
    ensures
        !st.valid(),
{
    crate::text::lemma_trim_bounds(st.copyright@);
    crate::text::lemma_trim_bounds(st.artist@);
}

/// A closed dialog is not open and cannot be confirmed.
pub proof fn lemma_blank_closed(st: MediaModalState)
    requires
        st.is_blank(),
    ensures
        !(st.mode is Some),
        !st.valid(),
{
    lemma_empty_field_invalid(st);
}

/// Every value offered for completion contains the query, and at most
/// `MAX_SUGG` are offered.
pub proof fn lemma_suggestions_match(list: Seq<Seq<char>>, query: Seq<char>)
    ensures
        suggestions_for(list, query).len() <= MAX_SUGG,
        forall|i: int|
            0 <= i < suggestions_for(list, query).len() ==> suggestion_matches(
                #[trigger] suggestions_for(list, query)[i],
                suggestion_query(query),
            ),
{
    let q = suggestion_query(query);
    if q.len() > 0 {
        let f = |s: Seq<char>| suggestion_matches(s, q);
        let all = list.filter(f);
        assert forall|i: int| 0 <= i < suggestions_for(list, query).len() implies suggestion_matches(
            #[trigger] suggestions_for(list, query)[i],
            q,
        ) by {
            assert(suggestions_for(list, query)[i] == all[i]);
            list.lemma_filter_pred(f, i);
        }
    }
}

/// Suggestions are complete: for a query that is not blank, every value of
/// the list whose lowercased form contains the trimmed, lowercased query is
/// offered, unless `MAX_SUGG` earlier values of the list already contain it.
/// In particular a value equal to the query, ignoring case, is offered.
pub proof fn lemma_suggestions_complete(list: Seq<Seq<char>>, query: Seq<char>, i: int)
    requires
        0 <= i < list.len(),
        lowercase(trimmed(query)).len() > 0,
        contains_seq(lowercase(list[i]), lowercase(trimmed(query))),
        list.take(i).filter(|s: Seq<char>| contains_seq(lowercase(s), lowercase(trimmed(query)))).len()
            < MAX_SUGG,
    ensures
        suggestions_for(list, query).contains(list[i]),
{
    let q = lowercase(trimmed(query));
    let f = |s: Seq<char>| suggestion_matches(s, suggestion_query(query));
    let g = |s: Seq<char>| contains_seq(lowercase(s), q);
    assert(f =~= g);
    let pre = list.take(i);
    let rest = list.skip(i + 1);
    assert(list =~= pre + (seq![list[i]] + rest));
    Seq::filter_distributes_over_add(pre, seq![list[i]] + rest, g);
    rest.lemma_filter_prepend(list[i], g);
    let all = list.filter(g);
    let k = pre.filter(g).len() as int;
    assert(all =~= pre.filter(g) + (seq![list[i]] + rest.filter(g)));
    assert(all[k] == list[i]);
    let shown = suggestions_for(list, query);
    assert(shown == first_n(all, MAX_SUGG as nat));
    if all.len() <= MAX_SUGG {
        assert(shown[k] == list[i]);
    } else {
        assert(shown =~= all.take(MAX_SUGG as int));
        assert(shown[k] == list[i]);
    }
}

/// A copy of a list of strings.
pub fn clone_strings(v: &Vec<String>) -> (r: Vec<String>)
    ensures
        views(r@) == views(v@),
{
    let mut r: Vec<String> = Vec::new();
    let mut i: usize = 0;
    while i < v.len()
        invariant
            i <= v@.len(),
            r@.len() == i,
            forall|k: int| 0 <= k < i ==> #[trigger] r@[k] == v@[k],
        decreases v.len() - i,
    {
        r.push(v[i].clone());
        i = i + 1;
    }
    assert(views(r@) =~= views(v@));
    r
}

/// The completion query for `query`: trimmed and lowercased.
pub open spec fn suggestion_query(query: Seq<char>) -> Seq<char> {
    lowercase(trimmed(query))
}

/// Whether the completion value `s` matches the query `q`: `q` occurs in its
/// lowercased form.
pub open spec fn suggestion_matches(s: Seq<char>, q: Seq<char>) -> bool {
    contains_seq(lowercase(s), q)
}

/// At most the first `n` elements of `s`.
pub open spec fn first_n<T>(s: Seq<T>, n: nat) -> Seq<T> {
    if s.len() <= n {
        s
    } else {
        s.take(n as int)
    }
}

/// The completion values offered for what the user typed: nothing for a blank
/// query, else the first eight values of `list` that contain the query
/// (trimmed, ignoring case), in their order.
pub open spec fn suggestions_for(list: Seq<Seq<char>>, query: Seq<char>) -> Seq<Seq<char>> {
    let q = suggestion_query(query);
    if q.len() == 0 {
        Seq::empty()
    } else {
        first_n(list.filter(|s: Seq<char>| suggestion_matches(s, q)), MAX_SUGG as nat)
    }
}

/// The completion values offered for `query` (see [`suggestions_for`]).
pub fn filter_suggestions(list: &[String], query: &str) -> (r: Vec<String>)
    ensures
        views(r@) == suggestions_for(views(list@), query@),
{
    let q = to_lowercase(trim_str(query).as_str());
    let qc = chars_of(q.as_str());
    if qc.len() == 0 {
        return Vec::new();
    }
    let ghost pred = |s: Seq<char>| suggestion_matches(s, q@);
    let ghost lv = views(list@);
    let mut out: Vec<String> = Vec::new();
    let mut i: usize = 0;
    while i < list.len() && out.len() < MAX_SUGG
        invariant
            i <= list@.len(),
            lv == views(list@),
            q@ == suggestion_query(query@),
            qc@ == q@,
            pred == (|s: Seq<char>| suggestion_matches(s, q@)),
            views(out@) == lv.take(i as int).filter(pred),
            out@.len() <= MAX_SUGG,
        decreases list.len() - i,
    {
        let low = to_lowercase(list[i].as_str());
        let hit = contains_chars(chars_of(low.as_str()).as_slice(), qc.as_slice());
        proof {
            reveal(Seq::filter);
            assert(lv.take(i + 1).drop_last() =~= lv.take(i as int));
            assert(lv.take(i + 1).last() == list@[i as int]@);
            assert(hit == pred(list@[i as int]@));
        }
        if hit {
            let ghost before = views(out@);
            out.push(list[i].clone());
            assert(views(out@) =~= before.push(list@[i as int]@));
        }
        i = i + 1;
    }
    proof {
        lemma_filter_prefix_first_n(lv, pred, i as int);
    }
    out
}

/// Filtering stops mattering once the limit is reached: if the filter of the
/// first `i` elements has `MAX_SUGG` elements or `i` is the length, its first
/// `MAX_SUGG` are those of the whole filter.
proof fn lemma_filter_prefix_first_n(s: Seq<Seq<char>>, pred: spec_fn(Seq<char>) -> bool, i: int)
    requires
        0 <= i <= s.len(),
        i == s.len() || s.take(i).filter(pred).len() >= MAX_SUGG,
        s.take(i).filter(pred).len() <= MAX_SUGG,
    ensures
        s.take(i).filter(pred) == first_n(s.filter(pred), MAX_SUGG as nat),
{
    assert(s =~= s.take(i) + s.skip(i));
    Seq::filter_distributes_over_add(s.take(i), s.skip(i), pred);
    let a = s.take(i).filter(pred);
    let b = s.skip(i).filter(pred);
    if i == s.len() {
        assert(s.skip(i) =~= Seq::<Seq<char>>::empty());
        reveal(Seq::filter);
        assert(b =~= Seq::<Seq<char>>::empty());
        assert(a + b =~= a);
    } else {
        assert(a.len() == MAX_SUGG);
        assert((a + b).take(MAX_SUGG as int) =~= a);
    }
}

/// The positions in `s` of the values not in `ex`, in their order.
pub open spec fn unexcluded(s: Seq<Seq<char>>, ex: Seq<Seq<char>>) -> Seq<int>
    decreases s.len(),
{
    if s.len() == 0 {
        Seq::empty()
    } else {
        let prev = unexcluded(s.drop_last(), ex);
        if ex.contains(s.last()) {
            prev
        } else {
            prev.push(s.len() - 1)
        }
    }
}

/// The rows a completion dropdown shows: the positions of the first
/// `MAX_SUGG` suggestions that are not chosen already.
pub open spec fn dropdown_rows(s: Seq<Seq<char>>, ex: Seq<Seq<char>>) -> Seq<int> {
    first_n(unexcluded(s, ex), MAX_SUGG as nat)
}

/// The positions of a prefix of `s` are a prefix of the positions of `s`.
proof fn lemma_unexcluded_prefix(s: Seq<Seq<char>>, ex: Seq<Seq<char>>, i: int)
    requires
        0 <= i <= s.len(),
    ensures
        unexcluded(s.take(i), ex).len() <= unexcluded(s, ex).len(),
        unexcluded(s, ex).take(unexcluded(s.take(i), ex).len() as int) == unexcluded(s.take(i), ex),
    decreases s.len() - i,
{
    if i == s.len() {
        assert(s.take(i) =~= s);
        assert(unexcluded(s, ex).take(unexcluded(s, ex).len() as int) =~= unexcluded(s, ex));
    } else {
        lemma_unexcluded_prefix(s, ex, i + 1);
        assert(s.take(i + 1).drop_last() =~= s.take(i));
        let a = unexcluded(s.take(i), ex);
        let b = unexcluded(s.take(i + 1), ex);
        let c = unexcluded(s, ex);
        assert(b.take(a.len() as int) =~= a);
        assert(c.take(a.len() as int) =~= b.take(b.len() as int).take(a.len() as int));
    }
}

/// The rows of a completion dropdown (see [`dropdown_rows`]).
pub fn visible_suggestions(suggestions: &[String], exclude: &[String]) -> (r: Vec<usize>)
    ensures
        r@.len() == dropdown_rows(views(suggestions@), views(exclude@)).len(),
        forall|k: int| 0 <= k < r@.len() ==> r@[k] as int == #[trigger] dropdown_rows(
            views(suggestions@),
            views(exclude@),
        )[k],
{
    let ghost sv = views(suggestions@);
    let ghost ev = views(exclude@);
    let mut out: Vec<usize> = Vec::new();
    let mut i: usize = 0;
    while i < suggestions.len() && out.len() < MAX_SUGG
        invariant
            i <= suggestions@.len(),
            sv == views(suggestions@),
            ev == views(exclude@),
            out@.len() == unexcluded(sv.take(i as int), ev).len(),
            out@.len() <= MAX_SUGG,
            forall|k: int| 0 <= k < out@.len() ==> out@[k] as int == #[trigger] unexcluded(sv.take(i as int), ev)[k],
        decreases suggestions.len() - i,
    {
        let hidden = contains_string(exclude, &suggestions[i]);
        proof {
            assert(sv.take(i + 1).drop_last() =~= sv.take(i as int));
            assert(sv.take(i + 1).last() == suggestions@[i as int]@);
        }
        if !hidden {
            out.push(i);
        }
        i = i + 1;
    }
    proof {
        let u = unexcluded(sv, ev);
        let p = unexcluded(sv.take(i as int), ev);
        lemma_unexcluded_prefix(sv, ev, i as int);
        if i == suggestions.len() {
            assert(sv.take(i as int) =~= sv);
        } else {
            assert(p.len() == MAX_SUGG);
            assert(u.take(MAX_SUGG as int) == p);
            if u.len() == MAX_SUGG {
                assert(u.take(MAX_SUGG as int) =~= u);
            }
        }
        assert(dropdown_rows(sv, ev) =~= p);
    }
    out
}

/// Whether what was typed can be added as a chip: trimmed, it is not empty
/// and not a chip already.
pub open spec fn chip_addable(items: Seq<Seq<char>>, input: Seq<char>) -> bool {
    trimmed(input).len() > 0 && !items.contains(trimmed(input))
}

/// Whether what was typed can be added as a chip (see [`chip_addable`]).
pub fn can_add_chip(items: &[String], input: &str) -> (r: bool)
    ensures
        r == chip_addable(views(items@), input@),
{
    let t = trim_str(input);
    chars_of(t.as_str()).len() > 0 && !contains_string(items, &t)
}

/// Adds what was typed as a chip when it can be: the trimmed text is appended,
/// the input cleared and the suggestion popup closed. Returns whether it was
/// added. Chips that were distinct stay distinct.
pub fn add_chip(items: &mut Vec<String>, input: &mut String, popup_open: &mut bool) -> (added: bool)
    ensures
        added == chip_addable(views(old(items)@), old(input)@),
        views(old(items)@).no_duplicates() ==> views(final(items)@).no_duplicates(),
        added ==> {
            &&& views(final(items)@) == views(old(items)@).push(trimmed(old(input)@))
            &&& final(input)@.len() == 0
            &&& !*final(popup_open)
        },
        !added ==> {
            &&& final(items)@ == old(items)@
            &&& final(input)@ == old(input)@
            &&& *final(popup_open) == *old(popup_open)
        },
{
    if !can_add_chip(items.as_slice(), input.as_str()) {
        return false;
    }
    let t = trim_str(input.as_str());
    let ghost before = views(items@);
    items.push(t);
    assert(views(items@) =~= before.push(trimmed(old(input)@)));
    proof {
        lemma_push_fresh_distinct(before, trimmed(old(input)@));
    }
    *input = String::new();
    *popup_open = false;
    true
}

/// Appending a value not yet present keeps a sequence free of repeats.
proof fn lemma_push_fresh_distinct(s: Seq<Seq<char>>, x: Seq<char>)
    requires
        !s.contains(x),
    ensures
        s.no_duplicates() ==> s.push(x).no_duplicates(),
{
    let t = s.push(x);
    if s.no_duplicates() {
        assert forall|i: int, j: int| 0 <= i < t.len() && 0 <= j < t.len() && i != j implies t[i] != t[j] by {
            if i == s.len() {
                assert(s.contains(t[j]));
            } else if j == s.len() {
                assert(s.contains(t[i]));
            }
        }
    }
}

/// Adds the suggestion at `row` as a chip, as a click in the dropdown does:
/// it is appended, the input cleared and the popup closed. The dropdown
/// offers only values that are not chips yet (see [`dropdown_rows`]), so chips
/// that were distinct stay distinct.
pub fn pick_chip(
    items: &mut Vec<String>,
    input: &mut String,
    popup_open: &mut bool,
    suggestions: &[String],
    row: usize,
)
    requires
        row < suggestions@.len(),
    ensures
        views(final(items)@) == views(old(items)@).push(suggestions@[row as int]@),
        final(input)@.len() == 0,
        !*final(popup_open),
        views(old(items)@).no_duplicates() && !views(old(items)@).contains(suggestions@[row as int]@)
            ==> views(final(items)@).no_duplicates(),
{
    let ghost before = views(items@);
    items.push(suggestions[row].clone());
    assert(views(items@) =~= before.push(suggestions@[row as int]@));
    proof {
        if !before.contains(suggestions@[row as int]@) {
            lemma_push_fresh_distinct(before, suggestions@[row as int]@);
        }
    }
    *input = String::new();
    *popup_open = false;
}

/// Removes the chip at `index`, as its close button does. Chips that were
/// distinct stay distinct.
pub fn remove_chip(items: &mut Vec<String>, index: usize)
    requires
        index < old(items)@.len(),
    ensures
        views(final(items)@) == views(old(items)@).remove(index as int),
        views(old(items)@).no_duplicates() ==> views(final(items)@).no_duplicates(),
{
    let ghost before = views(items@);
    items.remove(index);
    assert(views(items@) =~= before.remove(index as int));
    proof {
        let t = before.remove(index as int);
        if before.no_duplicates() {
            assert forall|i: int, j: int| 0 <= i < t.len() && 0 <= j < t.len() && i != j implies t[i] != t[j] by {
                let oi = if i < index { i } else { i + 1 };
                let oj = if j < index { j } else { j + 1 };
                assert(t[i] == before[oi]);
                assert(t[j] == before[oj]);
            }
        }
    }
}

/// The chips after removing the one at `remove`, if any.
pub open spec fn chips_after_remove(items: Seq<Seq<char>>, remove: Option<usize>) -> Seq<Seq<char>> {
    match remove {
        Some(i) => items.remove(i as int),
        None => items,
    }
}

/// Whether the typed text is added in a frame: it was confirmed (Enter or
/// the Add button) and can be added to the chips left after a removal.
pub open spec fn typed_added(items: Seq<Seq<char>>, input: Seq<char>, remove: Option<usize>, add_typed: bool) -> bool {
    add_typed && chip_addable(chips_after_remove(items, remove), input)
}

/// The chips after the typed text was added, when it is.
pub open spec fn chips_after_typing(items: Seq<Seq<char>>, input: Seq<char>, remove: Option<usize>, add_typed: bool) -> Seq<Seq<char>> {
    let a = chips_after_remove(items, remove);
    if typed_added(items, input, remove, add_typed) {
        a.push(trimmed(input))
    } else {
        a
    }
}

/// One frame of the chip section of the dialog: the chip at `remove` is
/// removed (its close button), then the typed text is added when confirmed
/// (`add_typed`) and addable, then the dropdown suggestion at `picked` is
/// added unless it is a chip already (the dropdown offers only those that are
/// not). Whenever a chip is added the input is cleared and the popup closed.
/// Chips that were distinct stay distinct, and at most one chip leaves.
pub fn chip_frame(
    items: &mut Vec<String>,
    input: &mut String,
    popup_open: &mut bool,
    suggestions: &[String],
    remove: Option<usize>,
    add_typed: bool,
    picked: Option<usize>,
)
    requires
        remove matches Some(i) ==> i < old(items)@.len(),
        picked matches Some(r) ==> r < suggestions@.len(),
    ensures
        ({
            let b = chips_after_typing(views(old(items)@), old(input)@, remove, add_typed);
            let picks = picked matches Some(r) && !b.contains(suggestions@[r as int]@);
            &&& views(final(items)@) == if picks {
                b.push(suggestions@[picked->0 as int]@)
            } else {
                b
            }
            &&& (typed_added(views(old(items)@), old(input)@, remove, add_typed) || picks) ==> final(input)@.len()
                == 0 && !*final(popup_open)
            &&& !(typed_added(views(old(items)@), old(input)@, remove, add_typed) || picks) ==> final(input)@
                == old(input)@ && *final(popup_open) == *old(popup_open)
        }),
        views(old(items)@).no_duplicates() ==> views(final(items)@).no_duplicates(),
{
    match remove {
        Some(i) => remove_chip(items, i),
        None => {},
    }
    let ghost a = views(items@);
    assert(a == chips_after_remove(views(old(items)@), remove));
    if add_typed {
        add_chip(items, input, popup_open);
    }
    let ghost b = views(items@);
    assert(b == chips_after_typing(views(old(items)@), old(input)@, remove, add_typed));
    match picked {
        Some(r) => {
            if !contains_string(items.as_slice(), &suggestions[r]) {
                pick_chip(items, input, popup_open, suggestions, r);
            }
        },
        None => {},
    }
}

} // verus!

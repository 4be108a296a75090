//! The multi-selection of a view (Ctrl-click, rubber band, bulk delete) and
//! the bookkeeping that follows the shown items: the position of each path,
//! and what a filter change or a deletion does to the selection.
use vstd::prelude::*;
use crate::models::{FieldFilter, MediaItem};
use crate::sorting::{toggled, toggle_field_filter};
use crate::library::{remove_path, without_path};
use crate::text::views;
use std::sync::Arc;

verus! {

/// The selected paths of a view, and the path a range selection starts from.
pub struct Selection {
    paths: Vec<String>,
    anchor: Option<String>,
}

impl Selection {
    /// The selected paths.
    pub closed spec fn selected(&self) -> Set<Seq<char>> {
        views(self.paths@).to_set()
    }

    /// The path a range selection starts from, if any.
    pub closed spec fn anchor_of(&self) -> Option<Seq<char>> {
        match self.anchor {
            Some(a) => Some(a@),
            None => None,
        }
    }

    /// How many paths are selected.
    pub closed spec fn count(&self) -> nat {
        self.paths@.len()
    }

    /// No path is held twice, so the count is the size of the selection.
    pub closed spec fn wf(&self) -> bool {
        views(self.paths@).no_duplicates()
    }

    /// The count of a well-formed selection is the number of selected paths.
    pub proof fn lemma_count(&self)
        requires
            self.wf(),
        ensures
            self.count() == self.selected().len(),
    {
        views(self.paths@).unique_seq_to_set();
    }

    /// Nothing selected, no anchor.
    pub fn new() -> (r: Self)
        ensures
            r.wf(),
            r.selected() == Set::<Seq<char>>::empty(),
            r.count() == 0,
            r.anchor_of() is None,
    {
        let r = Selection { paths: Vec::new(), anchor: None };
        assert(r.selected() =~= Set::<Seq<char>>::empty());
        r
    }

    /// The position of `path` among the selected paths, if it is selected.
    fn position(&self, path: &str) -> (r: Option<usize>)
        ensures
            match r {
                Some(i) => i < self.paths@.len() && self.paths@[i as int]@ == path@,
                None => !views(self.paths@).contains(path@),
            },
    {
        let mut i: usize = 0;
        while i < self.paths.len()
            invariant
                i <= self.paths@.len(),
                forall|k: int| 0 <= k < i ==> self.paths@[k]@ != path@,
            decreases self.paths.len() - i,
        {
            if crate::media::same_text(
                crate::text::chars_of(self.paths[i].as_str()).as_slice(),
                crate::text::chars_of(path).as_slice(),
            ) {
                return Some(i);
            }
            i = i + 1;
        }
        assert forall|k: int| 0 <= k < views(self.paths@).len() implies views(self.paths@)[k] != path@ by {
            assert(views(self.paths@)[k] == self.paths@[k]@);
        }
        None
    }

    /// Whether `path` is selected.
    pub fn contains(&self, path: &str) -> (r: bool)
        ensures
            r == self.selected().contains(path@),
    {
        match self.position(path) {
            Some(i) => {
                assert(views(self.paths@)[i as int] == path@);
                true
            },
            None => false,
        }
    }

    /// The path a range selection starts from, if any.
    pub fn anchor(&self) -> (r: Option<String>)
        ensures
            match r {
                Some(a) => self.anchor_of() == Some(a@),
                None => self.anchor_of() is None,
            },
    {
        match &self.anchor {
            Some(a) => Some(crate::text::string_of(crate::text::chars_of(a.as_str()).as_slice())),
            None => None,
        }
    }

    /// How many paths are selected.
    pub fn len(&self) -> (r: usize)
        ensures
            r == self.count(),
    {
        self.paths.len()
    }

    /// Selects `path` (a card under the rubber band); the anchor stays.
    pub fn insert(&mut self, path: String)
        requires
            old(self).wf(),
        ensures
            final(self).wf(),
            final(self).selected() == old(self).selected().insert(path@),
            final(self).anchor_of() == old(self).anchor_of(),
    {
        let pos = self.position(path.as_str());
        if pos.is_some() {
            let i = pos.unwrap();
            assert(views(self.paths@)[i as int] == path@);
            assert(old(self).selected().contains(path@));
            assert(self.selected() =~= old(self).selected().insert(path@));
            return;
        }
        let ghost before = views(self.paths@);
        self.paths.push(path);
        proof {
            let t = views(self.paths@);
            assert(t =~= before.push(path@));
            assert forall|i: int, j: int| 0 <= i < t.len() && 0 <= j < t.len() && i != j implies t[i] != t[j] by {
                if i == before.len() {
                    assert(before.contains(t[j]));
                } else if j == before.len() {
                    assert(before.contains(t[i]));
                }
            }
            assert forall|y: Seq<char>| t.contains(y) <==> before.contains(y) || y == path@ by {
                if t.contains(y) {
                    let k = choose|k: int| 0 <= k < t.len() && t[k] == y;
                    if k < before.len() {
                        assert(before[k] == y);
                    }
                }
                if before.contains(y) {
                    let k = choose|k: int| 0 <= k < before.len() && before[k] == y;
                    assert(t[k] == y);
                }
                if y == path@ {
                    assert(t[before.len() as int] == y);
                }
            }
            assert(self.selected() =~= old(self).selected().insert(path@));
        }
    }

    /// Unselects `path`; the anchor stays.
    pub fn remove(&mut self, path: &str)
        requires
            old(self).wf(),
        ensures
            final(self).wf(),
            final(self).selected() == old(self).selected().remove(path@),
            final(self).anchor_of() == old(self).anchor_of(),
    {
        match self.position(path) {
            None => {
                assert(self.selected() =~= old(self).selected().remove(path@));
            },
            Some(i) => {
                let ghost before = views(self.paths@);
                self.paths.remove(i);
                proof {
                    let t = views(self.paths@);
                    assert(t =~= before.remove(i as int));
                    assert forall|a: int, b: int| 0 <= a < t.len() && 0 <= b < t.len() && a != b implies t[a] != t[b] by {
                        let oa = if a < i { a } else { a + 1 };
                        let ob = if b < i { b } else { b + 1 };
                        assert(t[a] == before[oa]);
                        assert(t[b] == before[ob]);
                    }
                    assert forall|y: Seq<char>| t.contains(y) <==> before.contains(y) && y != path@ by {
                        if t.contains(y) {
                            let k = choose|k: int| 0 <= k < t.len() && t[k] == y;
                            let ok = if k < i { k } else { k + 1 };
                            assert(t[k] == before[ok]);
                            assert(ok != i);
                            assert(before[i as int] == path@);
                        }
                        if before.contains(y) && y != path@ {
                            let k = choose|k: int| 0 <= k < before.len() && before[k] == y;
                            assert(k != i);
                            let nk = if k < i { k } else { k - 1 };
                            assert(t[nk] == y);
                        }
                    }
                    assert(self.selected() =~= old(self).selected().remove(path@));
                }
            },
        }
    }

    /// Ctrl-click on a card: a selected path is unselected; another one is
    /// selected and becomes the anchor.
    pub fn toggle(&mut self, path: String)
        requires
            old(self).wf(),
        ensures
            final(self).wf(),
            old(self).selected().contains(path@) ==> final(self).selected() == old(self).selected().remove(
                path@,
            ) && final(self).anchor_of() == old(self).anchor_of(),
            !old(self).selected().contains(path@) ==> final(self).selected() == old(self).selected().insert(
                path@,
            ) && final(self).anchor_of() == Some(path@),
    {
        if self.contains(path.as_str()) {
            self.remove(path.as_str());
        } else {
            let a = crate::text::string_of(crate::text::chars_of(path.as_str()).as_slice());
            self.insert(path);
            self.anchor = Some(a);
        }
    }

    /// Clears the selection and its anchor.
    pub fn clear(&mut self)
        ensures
            final(self).wf(),
            final(self).selected() == Set::<Seq<char>>::empty(),
            final(self).count() == 0,
            final(self).anchor_of() is None,
    {
        *self = Self::new();
    }
}

/// Clicking the field filter `f` in the sidebar: the filter toggles (see
/// [`toggled`]) and, as the view is queried anew, the selection and its
/// anchor are cleared.
pub fn change_field_filter(current: Option<FieldFilter>, f: FieldFilter, sel: &mut Selection) -> (r: Option<FieldFilter>)
    ensures
        r == toggled(current, f),
        final(sel).wf(),
        final(sel).selected() == Set::<Seq<char>>::empty(),
        final(sel).anchor_of() is None,
{
    sel.clear();
    toggle_field_filter(current, f)
}

/// Follows a file deleted from the view (one of a bulk delete whose move to
/// the trash succeeded): its items leave the shown items and its path leaves
/// the selection. Files whose deletion failed are not passed here and stay.
pub fn forget_deleted(displayed: &mut Vec<Arc<MediaItem>>, sel: &mut Selection, path: &str)
    requires
        old(sel).wf(),
    ensures
        final(displayed)@ == without_path(old(displayed)@, path@),
        final(sel).wf(),
        final(sel).selected() == old(sel).selected().remove(path@),
        final(sel).anchor_of() == old(sel).anchor_of(),
{
    remove_path(displayed, path);
    sel.remove(path);
}

/// The entries of the index from each shown path to its position: the path
/// of the item at position `i`, with `i`, in order.
pub fn display_index_entries(items: &[Arc<MediaItem>]) -> (r: Vec<(String, usize)>)
    ensures
        r@.len() == items@.len(),
        forall|i: int| 0 <= i < items@.len() ==> #[trigger] r@[i].0@ == items@[i].path@ && r@[i].1 == i,
{
    let mut r: Vec<(String, usize)> = Vec::new();
    let mut i: usize = 0;
    while i < items.len()
        invariant
            i <= items@.len(),
            r@.len() == i,
            forall|k: int| 0 <= k < i ==> #[trigger] r@[k].0@ == items@[k].path@ && r@[k].1 == k,
        decreases items.len() - i,
    {
        r.push((crate::text::string_of(crate::text::chars_of(items[i].path.as_str()).as_slice()), i));
        i = i + 1;
    }
    r
}

/// When the shown paths are distinct, the index entries name each path once,
/// with its position: a map built from them gives each shown path its
/// position.
pub proof fn lemma_index_positions(items: Seq<Arc<MediaItem>>, entries: Seq<(String, usize)>)
    requires
        entries.len() == items.len(),
        forall|i: int| 0 <= i < items.len() ==> #[trigger] entries[i].0@ == items[i].path@ && entries[i].1 == i,
        forall|i: int, j: int| 0 <= i < j < items.len() ==> items[i].path@ != items[j].path@,
    ensures
        forall|i: int, j: int|
            0 <= i < entries.len() && 0 <= j < entries.len() && #[trigger] entries[i].0@ == #[trigger] entries[j].0@
                ==> i == j && entries[j].1 == i,
{
    assert forall|i: int, j: int|
        0 <= i < entries.len() && 0 <= j < entries.len() && #[trigger] entries[i].0@ == #[trigger] entries[j].0@
        implies i == j && entries[j].1 == i by {
        if i < j {
            assert(items[i].path@ != items[j].path@);
        } else if j < i {
            assert(items[j].path@ != items[i].path@);
        }
    }
}

/// The test that an item's path is among `paths`.
pub open spec fn in_selection(paths: Set<Seq<char>>) -> spec_fn(Arc<MediaItem>) -> bool {
    |a: Arc<MediaItem>| paths.contains(a.path@)
}

/// The shown items that are selected, in their shown order: what a bulk
/// delete asks to confirm.
pub fn selected_items(displayed: &[Arc<MediaItem>], sel: &Selection) -> (r: Vec<Arc<MediaItem>>)
    ensures
        r@ == displayed@.filter(in_selection(sel.selected())),
{
    let ghost pred = in_selection(sel.selected());
    let mut out: Vec<Arc<MediaItem>> = Vec::new();
    let mut i: usize = 0;
    while i < displayed.len()
        invariant
            i <= displayed@.len(),
            pred == in_selection(sel.selected()),
            out@ == displayed@.take(i as int).filter(pred),
        decreases displayed.len() - i,
    {
        proof {
            reveal(Seq::filter);
            assert(displayed@.take(i + 1).drop_last() =~= displayed@.take(i as int));
            assert(displayed@.take(i + 1).last() == displayed@[i as int]);
        }
        if sel.contains(displayed[i].path.as_str()) {
            out.push(crate::models::share(&displayed[i]));
        }
        i = i + 1;
    }
    assert(displayed@.take(displayed@.len() as int) =~= displayed@);
    out
}

} // verus!

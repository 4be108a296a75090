//! The order of the library view and the field filters of the sidebar.
use vstd::prelude::*;
use crate::models::{FieldFilter, MediaItem, SortOrder};
use crate::natural::{natural_order, natural_sign, lemma_natural_order_antisymmetric, lemma_natural_order_transitive, lemma_natural_order_reflexive};
use crate::text::{lowercase, chars_of, to_lowercase};
use std::sync::Arc;

verus! {

/// The key by which the library view orders names: the lowercased name.
pub open spec fn name_key(a: Arc<MediaItem>) -> Seq<char> {
    lowercase(a.name@)
}

/// Whether `s` is in natural order of names, ascending or descending.
pub open spec fn names_ordered(s: Seq<Arc<MediaItem>>, descending: bool) -> bool {
    forall|i: int, j: int|
        0 <= i < j < s.len() ==> if descending {
            natural_order(name_key(s[j]), name_key(s[i])) <= 0
        } else {
            natural_order(name_key(s[i]), name_key(s[j])) <= 0
        }
}

/// Whether the view holds `r` once `s` is sorted by `sort`: by name the items
/// are put in natural order (ascending or descending) and the result holds the
/// same items; by date they stay in the order the query gave them.
pub open spec fn sorted_for(sort: SortOrder, s: Seq<Arc<MediaItem>>, r: Seq<Arc<MediaItem>>) -> bool {
    match sort {
        SortOrder::NameAsc => r.to_multiset() == s.to_multiset() && names_ordered(r, false),
        SortOrder::NameDesc => r.to_multiset() == s.to_multiset() && names_ordered(r, true),
        _ => r == s,
    }
}

/// Whether `x` goes before `y`: strictly earlier in natural order, or strictly
/// later when descending.
pub open spec fn goes_before(x: Seq<char>, y: Seq<char>, descending: bool) -> bool {
    if descending {
        natural_order(y, x) < 0
    } else {
        natural_order(x, y) < 0
    }
}

/// Sorts the shown items for `sort` (see [`sorted_for`]).
pub fn sort_items(items: &mut Vec<Arc<MediaItem>>, sort: SortOrder)
    ensures
        sorted_for(sort, old(items)@, final(items)@),
{
    let descending = match sort {
        SortOrder::NameAsc => false,
        SortOrder::NameDesc => true,
        _ => return,
    };
    let ghost orig = items@;
    let mut out: Vec<Arc<MediaItem>> = Vec::new();
    proof {
        broadcast use vstd::seq_lib::group_to_multiset_ensures;
        assert(orig.take(0) =~= Seq::<Arc<MediaItem>>::empty());
        assert(out@ =~= Seq::<Arc<MediaItem>>::empty());
    }
    let mut keys: Vec<Vec<char>> = Vec::new();
    let mut i: usize = 0;
    while i < items.len()
        invariant
            i <= items@.len(),
            items@ == orig,
            out@.len() == keys@.len(),
            forall|q: int| 0 <= q < out@.len() ==> #[trigger] keys@[q]@ == name_key(out@[q]),
            out@.to_multiset() == orig.take(i as int).to_multiset(),
            names_ordered(out@, descending),
        decreases items.len() - i,
    {
        let x = crate::models::share(&items[i]);
        let kx = chars_of(to_lowercase(x.name.as_str()).as_str());
        let mut p: usize = 0;
        while p < out.len()
            invariant
                p <= out@.len(),
                out@.len() == keys@.len(),
                forall|q: int| 0 <= q < out@.len() ==> #[trigger] keys@[q]@ == name_key(out@[q]),
                kx@ == name_key(x),
                forall|q: int| 0 <= q < p ==> !goes_before(kx@, #[trigger] keys@[q]@, descending),
            ensures
                p <= out@.len(),
                forall|q: int| 0 <= q < p ==> !goes_before(kx@, #[trigger] keys@[q]@, descending),
                p < out@.len() ==> goes_before(kx@, keys@[p as int]@, descending),
            decreases out.len() - p,
        {
            let sign = if descending {
                natural_sign(keys[p].as_slice(), kx.as_slice())
            } else {
                natural_sign(kx.as_slice(), keys[p].as_slice())
            };
            if sign < 0 {
                break;
            }
            p = p + 1;
        }
        let ghost old_out = out@;
        proof {
            assert forall|q: int| 0 <= q < p implies !goes_before(name_key(x), #[trigger] name_key(old_out[q]), descending) by {
                assert(keys@[q]@ == name_key(old_out[q]));
            }
            if p < old_out.len() {
                assert(keys@[p as int]@ == name_key(old_out[p as int]));
            }
            lemma_insert_keeps_order(old_out, p as int, x, descending);
            lemma_insert_multiset(old_out, p as int, x);
        }
        out.insert(p, x);
        keys.insert(p, kx);
        proof {
            assert(out@ =~= old_out.insert(p as int, x));
            assert(orig.take(i + 1) =~= orig.take(i as int).push(x));
            broadcast use vstd::seq_lib::group_to_multiset_ensures;
            assert(orig.take(i as int).push(x).to_multiset() =~= orig.take(i as int).to_multiset().insert(x));
            assert forall|q: int| 0 <= q < out@.len() implies #[trigger] keys@[q]@ == name_key(out@[q]) by {
                if q < p {
                    assert(out@[q] == old_out[q]);
                } else if q > p {
                    assert(out@[q] == old_out[q - 1]);
                }
            }
        }
        i = i + 1;
    }
    assert(orig.take(orig.len() as int) =~= orig);
    *items = out;
}

/// Inserting an element anywhere adds it to the multiset of elements.
proof fn lemma_insert_multiset(s: Seq<Arc<MediaItem>>, p: int, x: Arc<MediaItem>)
    requires
        0 <= p <= s.len(),
    ensures
        s.insert(p, x).to_multiset() == s.to_multiset().insert(x),
{
    broadcast use vstd::seq_lib::group_to_multiset_ensures;
    broadcast use vstd::multiset::group_multiset_axioms;

    let t = s.insert(p, x);
    assert(t.remove(p) =~= s);
    assert(t[p] == x);
    assert(t.to_multiset().count(x) > 0) by {
        assert(t.to_multiset() =~= (t.take(p) + t.skip(p)).to_multiset()) by {
            assert(t.take(p) + t.skip(p) =~= t);
        }
        vstd::seq_lib::lemma_multiset_commutative(t.take(p), t.skip(p));
        assert(t.skip(p) =~= seq![x] + t.skip(p + 1));
        vstd::seq_lib::lemma_multiset_commutative(seq![x], t.skip(p + 1));
        assert(seq![x] =~= Seq::<Arc<MediaItem>>::empty().push(x));
    }
    assert(t.to_multiset() =~= s.to_multiset().insert(x));
}

/// Inserting `x` at the first place before which it goes keeps the names in order.
proof fn lemma_insert_keeps_order(s: Seq<Arc<MediaItem>>, p: int, x: Arc<MediaItem>, descending: bool)
    requires
        0 <= p <= s.len(),
        names_ordered(s, descending),
        forall|q: int| 0 <= q < p ==> !goes_before(name_key(x), #[trigger] name_key(s[q]), descending),
        p < s.len() ==> goes_before(name_key(x), name_key(s[p]), descending),
    ensures
        names_ordered(s.insert(p, x), descending),
{
    let t = s.insert(p, x);
    let kx = name_key(x);
    assert forall|i: int, j: int| 0 <= i < j < t.len() implies (if descending {
        natural_order(name_key(t[j]), name_key(t[i])) <= 0
    } else {
        natural_order(name_key(t[i]), name_key(t[j])) <= 0
    }) by {
        let ti = if i < p { s[i] } else if i == p { x } else { s[i - 1] };
        let tj = if j < p { s[j] } else if j == p { x } else { s[j - 1] };
        assert(t[i] == ti);
        assert(t[j] == tj);
        if i < p && j == p {
            lemma_natural_order_antisymmetric(kx, name_key(s[i]));
        } else if i == p && j > p {
            let kp = name_key(s[p]);
            let kj = name_key(s[j - 1]);
            if j - 1 > p {
                if descending {
                    lemma_natural_order_transitive(kj, kp, kx);
                } else {
                    lemma_natural_order_transitive(kx, kp, kj);
                }
            }
        } else if i < p && j > p {
        }
    }
}

/// Whether `f` filters on the same field and value as `g`.
pub open spec fn same_filter(f: FieldFilter, g: FieldFilter) -> bool {
    match (f, g) {
        (FieldFilter::Artist(a), FieldFilter::Artist(b)) => a@ == b@,
        (FieldFilter::Copyright(a), FieldFilter::Copyright(b)) => a@ == b@,
        (FieldFilter::Tag(a), FieldFilter::Tag(b)) => a@ == b@,
        _ => false,
    }
}

/// Whether `f` and `g` filter on the same field and value.
pub fn filters_equal(f: &FieldFilter, g: &FieldFilter) -> (r: bool)
    ensures
        r == same_filter(*f, *g),
{
    match (f, g) {
        (FieldFilter::Artist(a), FieldFilter::Artist(b)) => *a == *b,
        (FieldFilter::Copyright(a), FieldFilter::Copyright(b)) => *a == *b,
        (FieldFilter::Tag(a), FieldFilter::Tag(b)) => *a == *b,
        _ => false,
    }
}

/// The field filter after the user clicks the filter `f` in the sidebar:
/// clicking the active filter clears it, clicking another one makes it active.
pub open spec fn toggled(current: Option<FieldFilter>, f: FieldFilter) -> Option<FieldFilter> {
    match current {
        Some(c) => if same_filter(c, f) {
            None
        } else {
            Some(f)
        },
        None => Some(f),
    }
}

/// Clicking a filter when none is active makes it active, and clicking it
/// again clears it.
pub proof fn lemma_toggle_twice(f: FieldFilter)
    ensures
        toggled(None, f) == Some(f),
        toggled(toggled(None, f), f) is None,
{
    assert(same_filter(f, f));
}

/// The field filter after the user clicks the filter `f` (see [`toggled`]).
pub fn toggle_field_filter(current: Option<FieldFilter>, f: FieldFilter) -> (r: Option<FieldFilter>)
    ensures
        r == toggled(current, f),
{
    let same = match &current {
        Some(c) => filters_equal(c, &f),
        None => false,
    };
    if same {
        None
    } else {
        Some(f)
    }
}

/// Whether the sidebar shows the filter `f` as active.
pub fn filter_active(current: &Option<FieldFilter>, f: &FieldFilter) -> (r: bool)
    ensures
        r == match current {
            Some(c) => same_filter(*c, *f),
            None => false,
        },
{
    match current {
        Some(c) => filters_equal(c, f),
        None => false,
    }
}

} // verus!

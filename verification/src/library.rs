//! Decisions the library view takes between its background jobs: paging of
//! query results, scan progress, the staging filter, the values whose
//! statistics the sidebar shows, and keeping the shown items in step with
//! renames and deletions on disk.
use vstd::prelude::*;
use crate::models::{MediaItem, StagingItem, share};
use crate::text::{trimmed, lowercase, contains_seq, views, chars_of, to_lowercase, contains_chars, trim_str};
use crate::modal::clone_strings;
use crate::models::SortOrder;
use crate::sorting::{sort_items, sorted_for};
use std::sync::Arc;

verus! {

/// How many items a query page holds.
pub const PAGE_SIZE: usize = 200;

/// How many items the library view shows at most.
pub const MAX_DISPLAYED_ITEMS: usize = 5000;

/// Paging through the results of the current library query.
pub struct Paging {
    /// How many pages have been received in full.
    pub page: usize,
    /// Whether more results may follow.
    pub has_more: bool,
    /// Whether a page has been asked for and not yet received.
    pub is_loading_more: bool,
}

impl Paging {
    /// The state before any query.
    pub fn new() -> (r: Self)
        ensures
            r.page == 0,
            r.has_more,
            !r.is_loading_more,
    {
        Paging { page: 0, has_more: true, is_loading_more: false }
    }

    /// Starts a new query: a page still loading for the previous query is
    /// given up (its answer no longer counts), and the first page of the new
    /// one is being loaded, so that a settled search is always sent.
    pub fn start_query(&mut self)
        ensures
            final(self).page == 0,
            final(self).has_more,
            final(self).is_loading_more,
    {
        self.page = 0;
        self.has_more = true;
        self.is_loading_more = true;
    }

    /// Forgets a page that is loading, so that a new query may start.
    pub fn cancel_loading(&mut self)
        ensures
            final(self).page == old(self).page,
            final(self).has_more == old(self).has_more,
            !final(self).is_loading_more,
    {
        self.is_loading_more = false;
    }

    /// The offset of the next page to ask for, when `displayed` items are
    /// shown: none while a page loads, after the last page, or once the view
    /// is full. Asking marks a page as loading.
    pub fn next_page_offset(&mut self, displayed: usize) -> (r: Option<usize>)
        requires
            old(self).page * PAGE_SIZE <= usize::MAX,
        ensures
            (r is Some) == (old(self).has_more && !old(self).is_loading_more && displayed
                < MAX_DISPLAYED_ITEMS),
            r matches Some(off) ==> off == old(self).page * PAGE_SIZE && final(self).is_loading_more,
            final(self).page == old(self).page,
            final(self).has_more == old(self).has_more,
            r is None ==> final(self).is_loading_more == old(self).is_loading_more,
    {
        if !self.has_more || self.is_loading_more {
            return None;
        }
        if displayed >= MAX_DISPLAYED_ITEMS {
            return None;
        }
        self.is_loading_more = true;
        Some(self.page * PAGE_SIZE)
    }

    /// Records a page of `count` results of the current query: a short page
    /// is the last one, a full one moves the paging on.
    pub fn page_received(&mut self, count: usize)
        requires
            old(self).page < usize::MAX,
        ensures
            count < PAGE_SIZE ==> !final(self).has_more && final(self).page == old(self).page,
            count >= PAGE_SIZE ==> final(self).has_more == old(self).has_more && final(self).page
                == old(self).page + 1,
            !final(self).is_loading_more,
    {
        if count < PAGE_SIZE {
            self.has_more = false;
        } else {
            self.page = self.page + 1;
        }
        self.is_loading_more = false;
    }
}

/// Takes in a page of results of the current query: the paging moves on as
/// [`Paging::page_received`] says, and the page joins the shown items, which
/// are then sorted for `sort`. Returns whether it was the first page (nothing
/// was shown before), after which the sidebar statistics are asked for.
pub fn accept_page(
    paging: &mut Paging,
    shown: &mut Vec<Arc<MediaItem>>,
    page: Vec<Arc<MediaItem>>,
    sort: SortOrder,
) -> (first: bool)
    requires
        old(paging).page < usize::MAX,
    ensures
        first == (old(shown)@.len() == 0),
        sorted_for(sort, old(shown)@ + page@, final(shown)@),
        page@.len() < PAGE_SIZE ==> !final(paging).has_more && final(paging).page == old(paging).page,
        page@.len() >= PAGE_SIZE ==> final(paging).has_more == old(paging).has_more
            && final(paging).page == old(paging).page + 1,
        !final(paging).is_loading_more,
{
    let first = shown.len() == 0;
    paging.page_received(page.len());
    let ghost before = shown@;
    let mut i: usize = 0;
    while i < page.len()
        invariant
            i <= page@.len(),
            shown@ == before + page@.take(i as int),
        decreases page.len() - i,
    {
        shown.push(share(&page[i]));
        assert(before + page@.take(i + 1) =~= (before + page@.take(i as int)).push(page@[i as int]));
        i = i + 1;
    }
    assert(page@.take(page@.len() as int) =~= page@);
    sort_items(shown, sort);
    first
}

/// How many scan events a frame takes in at most; the rest wait for the next frame.
pub const MAX_SCAN_EVENTS_PER_FRAME: usize = 32;

/// What a scan reports.
#[derive(Clone, Copy, Debug)]
pub enum ScanEvent {
    /// So many more files were scanned.
    Progress(u64),
    /// The scan is over.
    Finished,
}

/// The files counted by the progress events of `events`.
pub open spec fn scanned_total(events: Seq<ScanEvent>) -> nat
    decreases events.len(),
{
    if events.len() == 0 {
        0
    } else {
        scanned_total(events.drop_last()) + match events.last() {
            ScanEvent::Progress(n) => n as nat,
            ScanEvent::Finished => 0,
        }
    }
}

/// Whether `events` holds a `Finished` event.
pub open spec fn has_finished(events: Seq<ScanEvent>) -> bool {
    exists|i: int| 0 <= i < events.len() && #[trigger] events[i] is Finished
}

/// The progress of a scan of the library or of the staging folder.
pub struct ScanState {
    pub is_scanning: bool,
    pub files_scanned: u64,
}

impl ScanState {
    /// No scan running.
    pub fn new() -> (r: Self)
        ensures
            !r.is_scanning,
            r.files_scanned == 0,
    {
        ScanState { is_scanning: false, files_scanned: 0 }
    }

    /// Starts a scan of `root`, unless one is running or no folder is given.
    /// Returns whether the scan is to be started.
    pub fn begin(&mut self, root: &str) -> (started: bool)
        ensures
            started == (!old(self).is_scanning && root@.len() > 0),
            started ==> final(self).is_scanning && final(self).files_scanned == 0,
            !started ==> final(self).is_scanning == old(self).is_scanning && final(self).files_scanned
                == old(self).files_scanned,
    {
        if self.is_scanning || chars_of(root).len() == 0 {
            return false;
        }
        self.is_scanning = true;
        self.files_scanned = 0;
        true
    }

    /// Takes in the events a scan sent since the last frame: progress adds to
    /// the count, and a `Finished` event ends the scan. Returns whether it ended.
    pub fn take_events(&mut self, events: &[ScanEvent]) -> (finished: bool)
        requires
            old(self).files_scanned + scanned_total(events@) <= u64::MAX,
        ensures
            finished == has_finished(events@),
            final(self).files_scanned == old(self).files_scanned + scanned_total(events@),
            final(self).is_scanning == (old(self).is_scanning && !finished),
    {
        let mut finished = false;
        let mut i: usize = 0;
        let ghost start = self.files_scanned;
        while i < events.len()
            invariant
                i <= events@.len(),
                start + scanned_total(events@) <= u64::MAX,
                self.files_scanned == start + scanned_total(events@.take(i as int)),
                finished == has_finished(events@.take(i as int)),
                self.is_scanning == old(self).is_scanning,
            decreases events.len() - i,
        {
            proof {
                let t = events@.take(i + 1);
                assert(t.drop_last() =~= events@.take(i as int));
                lemma_scanned_total_prefix(events@, i + 1);
                assert(has_finished(t) == (has_finished(events@.take(i as int)) || events@[i as int] is Finished)) by {
                    if has_finished(events@.take(i as int)) {
                        let k = choose|k: int| 0 <= k < i && #[trigger] events@.take(i as int)[k] is Finished;
                        assert(t[k] == events@.take(i as int)[k]);
                    }
                    if events@[i as int] is Finished {
                        assert(t[i as int] == events@[i as int]);
                    }
                    if has_finished(t) {
                        let k = choose|k: int| 0 <= k < t.len() && #[trigger] t[k] is Finished;
                        if k < i {
                            assert(events@.take(i as int)[k] == t[k]);
                        }
                    }
                }
            }
            match events[i] {
                ScanEvent::Progress(n) => {
                    self.files_scanned = self.files_scanned + n;
                },
                ScanEvent::Finished => {
                    finished = true;
                },
            }
            i = i + 1;
        }
        assert(events@.take(events@.len() as int) =~= events@);
        if finished {
            self.is_scanning = false;
        }
        finished
    }
}

/// Taking the events of a scan in two batches counts the same files, and
/// ends the scan just when, as taking them all at once.
pub proof fn lemma_events_in_batches(a: Seq<ScanEvent>, b: Seq<ScanEvent>)
    ensures
        scanned_total(a + b) == scanned_total(a) + scanned_total(b),
        has_finished(a + b) == (has_finished(a) || has_finished(b)),
    decreases b.len(),
{
    if b.len() == 0 {
        assert(a + b =~= a);
    } else {
        lemma_events_in_batches(a, b.drop_last());
        assert((a + b).drop_last() =~= a + b.drop_last());
        assert((a + b).last() == b.last());
    }
    if has_finished(a) {
        let i = choose|i: int| 0 <= i < a.len() && #[trigger] a[i] is Finished;
        assert((a + b)[i] == a[i]);
    }
    if has_finished(b) {
        let j = choose|j: int| 0 <= j < b.len() && #[trigger] b[j] is Finished;
        assert((a + b)[a.len() + j] == b[j]);
    }
    if has_finished(a + b) {
        let k = choose|k: int| 0 <= k < (a + b).len() && #[trigger] (a + b)[k] is Finished;
        if k < a.len() {
            assert(a[k] == (a + b)[k]);
        } else {
            assert(b[k - a.len()] == (a + b)[k]);
        }
    }
}

/// The count of a prefix is at most the count of the whole.
proof fn lemma_scanned_total_prefix(events: Seq<ScanEvent>, k: int)
    requires
        0 <= k <= events.len(),
    ensures
        scanned_total(events.take(k)) <= scanned_total(events),
    decreases events.len() - k,
{
    if k < events.len() {
        lemma_scanned_total_prefix(events, k + 1);
        assert(events.take(k + 1).drop_last() =~= events.take(k));
    } else {
        assert(events.take(k) =~= events);
    }
}

/// The staging filter query: the search text trimmed and lowercased.
pub open spec fn staging_query(search: Seq<char>) -> Seq<char> {
    lowercase(trimmed(search))
}

/// Whether a staging file matches the query `q`: its lowercased name or path contains it.
pub open spec fn staging_matches(item: StagingItem, q: Seq<char>) -> bool {
    contains_seq(lowercase(item.name@), q) || contains_seq(lowercase(item.path@), q)
}

/// The staging files shown for `search`: all of them for a blank search, else
/// those that match it, in their order.
pub open spec fn staging_shown(items: Seq<Arc<StagingItem>>, search: Seq<char>) -> Seq<Arc<StagingItem>> {
    let q = staging_query(search);
    if q.len() == 0 {
        items
    } else {
        items.filter(|a: Arc<StagingItem>| staging_matches(*a, q))
    }
}

/// The staging files shown for `search` (see [`staging_shown`]).
pub fn filter_staging(items: &[Arc<StagingItem>], search: &str) -> (r: Vec<Arc<StagingItem>>)
    ensures
        r@ == staging_shown(items@, search@),
{
    let q = to_lowercase(trim_str(search).as_str());
    let qc = chars_of(q.as_str());
    let ghost pred = |a: Arc<StagingItem>| staging_matches(*a, q@);
    let mut out: Vec<Arc<StagingItem>> = Vec::new();
    let blank = qc.len() == 0;
    let mut i: usize = 0;
    while i < items.len()
        invariant
            i <= items@.len(),
            q@ == staging_query(search@),
            qc@ == q@,
            blank == (q@.len() == 0),
            pred == (|a: Arc<StagingItem>| staging_matches(*a, q@)),
            blank ==> out@ == items@.take(i as int),
            !blank ==> out@ == items@.take(i as int).filter(pred),
        decreases items.len() - i,
    {
        let a = &items[i];
        proof {
            reveal(Seq::filter);
            assert(items@.take(i + 1).drop_last() =~= items@.take(i as int));
            assert(items@.take(i + 1).last() == items@[i as int]);
        }
        if blank {
            out.push(share(a));
            assert(out@ =~= items@.take(i + 1));
        } else {
            let name_hit = contains_chars(
                chars_of(to_lowercase(a.name.as_str()).as_str()).as_slice(),
                qc.as_slice(),
            );
            let path_hit = contains_chars(
                chars_of(to_lowercase(a.path.as_str()).as_str()).as_slice(),
                qc.as_slice(),
            );
            assert((name_hit || path_hit) == pred(items@[i as int]));
            if name_hit || path_hit {
                out.push(share(a));
            }
        }
        i = i + 1;
    }
    assert(items@.take(items@.len() as int) =~= items@);
    out
}

/// The non-empty values of `vals` without repeats, in the order they first occur.
pub open spec fn distinct_nonempty(vals: Seq<Seq<char>>) -> Seq<Seq<char>>
    decreases vals.len(),
{
    if vals.len() == 0 {
        Seq::empty()
    } else {
        let prev = distinct_nonempty(vals.drop_last());
        let v = vals.last();
        if v.len() == 0 || prev.contains(v) {
            prev
        } else {
            prev.push(v)
        }
    }
}

/// The values kept are distinct and non-empty, and each non-empty value of
/// `vals` is kept.
pub proof fn lemma_distinct_nonempty(vals: Seq<Seq<char>>)
    ensures
        distinct_nonempty(vals).no_duplicates(),
        forall|v: Seq<char>| #[trigger] distinct_nonempty(vals).contains(v) <==> (v.len() > 0 && vals.contains(v)),
    decreases vals.len(),
{
    if vals.len() > 0 {
        let rest = vals.drop_last();
        lemma_distinct_nonempty(rest);
        let prev = distinct_nonempty(rest);
        let v = vals.last();
        assert forall|w: Seq<char>| vals.contains(w) <==> (rest.contains(w) || w == v) by {
            if vals.contains(w) {
                let k = choose|k: int| 0 <= k < vals.len() && vals[k] == w;
                if k < vals.len() - 1 {
                    assert(rest[k] == w);
                }
            }
            if rest.contains(w) {
                let k = choose|k: int| 0 <= k < rest.len() && rest[k] == w;
                assert(vals[k] == w);
            }
            if w == v {
                assert(vals[vals.len() - 1] == w);
            }
        }
        if !(v.len() == 0 || prev.contains(v)) {
            let next = prev.push(v);
            assert forall|w: Seq<char>| next.contains(w) <==> (prev.contains(w) || w == v) by {
                if next.contains(w) {
                    let k = choose|k: int| 0 <= k < next.len() && next[k] == w;
                    if k < prev.len() {
                        assert(prev[k] == w);
                    }
                }
                if prev.contains(w) {
                    let k = choose|k: int| 0 <= k < prev.len() && prev[k] == w;
                    assert(next[k] == w);
                }
                if w == v {
                    assert(next[prev.len() as int] == w);
                }
            }
            assert forall|i: int, j: int| 0 <= i < next.len() && 0 <= j < next.len() && i != j implies next[i] != next[j] by {
                if i < prev.len() && j < prev.len() {
                } else if i < prev.len() {
                    assert(prev.contains(next[i]));
                } else {
                    assert(prev.contains(next[j]));
                }
            }
        }
    }
}

/// The values the sidebar asks statistics for are, in each list, distinct
/// and non-empty.
pub proof fn lemma_stat_values_distinct(items: Seq<Arc<MediaItem>>)
    ensures
        stat_request(items) matches Some((c, a, t)) ==> {
            &&& c.no_duplicates() && a.no_duplicates() && t.no_duplicates()
            &&& forall|i: int| 0 <= i < c.len() ==> #[trigger] c[i].len() > 0
            &&& forall|i: int| 0 <= i < a.len() ==> #[trigger] a[i].len() > 0
            &&& forall|i: int| 0 <= i < t.len() ==> #[trigger] t[i].len() > 0
        },
{
    let s = stat_items(items);
    let cv = s.map_values(|x: Arc<MediaItem>| x.copyright@);
    let av = s.map_values(|x: Arc<MediaItem>| x.artist@);
    let tv = all_tags(s);
    lemma_distinct_nonempty(cv);
    lemma_distinct_nonempty(av);
    lemma_distinct_nonempty(tv);
    let c = distinct_nonempty(cv);
    let a = distinct_nonempty(av);
    let t = distinct_nonempty(tv);
    assert forall|i: int| 0 <= i < c.len() implies #[trigger] c[i].len() > 0 by {
        assert(c.contains(c[i]));
    }
    assert forall|i: int| 0 <= i < a.len() implies #[trigger] a[i].len() > 0 by {
        assert(a.contains(a[i]));
    }
    assert forall|i: int| 0 <= i < t.len() implies #[trigger] t[i].len() > 0 by {
        assert(t.contains(t[i]));
    }
}

/// The items the sidebar statistics are taken from: the first three shown.
pub open spec fn stat_items(items: Seq<Arc<MediaItem>>) -> Seq<Arc<MediaItem>> {
    if items.len() <= 3 {
        items
    } else {
        items.take(3)
    }
}

/// The tags of a sequence of items, one after the other.
pub open spec fn all_tags(items: Seq<Arc<MediaItem>>) -> Seq<Seq<char>>
    decreases items.len(),
{
    if items.len() == 0 {
        Seq::empty()
    } else {
        all_tags(items.drop_last()) + views(items.last().tags@)
    }
}

/// The values whose statistics the sidebar asks for: the distinct non-empty
/// copyrights, artists and tags of the first three shown items, each list in
/// the order of first occurrence; `None` when there is nothing to ask for.
pub open spec fn stat_request(items: Seq<Arc<MediaItem>>) -> Option<(Seq<Seq<char>>, Seq<Seq<char>>, Seq<Seq<char>>)> {
    let s = stat_items(items);
    let c = distinct_nonempty(s.map_values(|a: Arc<MediaItem>| a.copyright@));
    let a = distinct_nonempty(s.map_values(|a: Arc<MediaItem>| a.artist@));
    let t = distinct_nonempty(all_tags(s));
    if s.len() == 0 || (c.len() == 0 && a.len() == 0 && t.len() == 0) {
        None
    } else {
        Some((c, a, t))
    }
}

/// Whether `v` holds a string whose characters are `x`.
fn holds(v: &Vec<String>, x: &String) -> (r: bool)
    ensures
        r == views(v@).contains(x@),
{
    let mut i: usize = 0;
    while i < v.len()
        invariant
            i <= v@.len(),
            forall|k: int| 0 <= k < i ==> v@[k]@ != x@,
        decreases v.len() - i,
    {
        if v[i] == *x {
            assert(views(v@)[i as int] == x@);
            return true;
        }
        i = i + 1;
    }
    assert forall|k: int| 0 <= k < views(v@).len() implies views(v@)[k] != x@ by {
        assert(views(v@)[k] == v@[k]@);
    }
    false
}

/// Adds `x` to `v` unless it is empty or already there.
fn add_distinct(v: &mut Vec<String>, x: &String)
    ensures
        views(final(v)@) == if x@.len() == 0 || views(old(v)@).contains(x@) {
            views(old(v)@)
        } else {
            views(old(v)@).push(x@)
        },
{
    if chars_of(x.as_str()).len() == 0 || holds(v, x) {
        return;
    }
    let ghost before = views(v@);
    v.push(x.clone());
    assert(views(v@) =~= before.push(x@));
}

/// The values whose statistics the sidebar asks for (see [`stat_request`]).
pub fn stats_values(items: &[Arc<MediaItem>]) -> (r: Option<(Vec<String>, Vec<String>, Vec<String>)>)
    ensures
        match r {
            Some((c, a, t)) => stat_request(items@) == Some((views(c@), views(a@), views(t@))),
            None => stat_request(items@) is None,
        },
{
    let n = if items.len() < 3 {
        items.len()
    } else {
        3
    };
    let ghost s = stat_items(items@);
    assert(s =~= items@.take(n as int));
    let mut copyrights: Vec<String> = Vec::new();
    let mut artists: Vec<String> = Vec::new();
    let mut tags: Vec<String> = Vec::new();
    let mut i: usize = 0;
    while i < n
        invariant
            i <= n <= items@.len(),
            s == items@.take(n as int),
            views(copyrights@) == distinct_nonempty(
                s.take(i as int).map_values(|a: Arc<MediaItem>| a.copyright@),
            ),
            views(artists@) == distinct_nonempty(
                s.take(i as int).map_values(|a: Arc<MediaItem>| a.artist@),
            ),
            views(tags@) == distinct_nonempty(all_tags(s.take(i as int))),
        decreases n - i,
    {
        let it = &items[i];
        let ghost pre = s.take(i as int);
        let ghost post = s.take(i + 1);
        proof {
            assert(post.drop_last() =~= pre);
            assert(post.last() == items@[i as int]);
            assert(post.map_values(|a: Arc<MediaItem>| a.copyright@).drop_last() =~= pre.map_values(
                |a: Arc<MediaItem>| a.copyright@,
            ));
            assert(post.map_values(|a: Arc<MediaItem>| a.artist@).drop_last() =~= pre.map_values(
                |a: Arc<MediaItem>| a.artist@,
            ));
        }
        add_distinct(&mut copyrights, &it.copyright);
        add_distinct(&mut artists, &it.artist);
        let ghost base_tags = all_tags(pre);
        let mut k: usize = 0;
        while k < it.tags.len()
            invariant
                k <= it.tags@.len(),
                views(tags@) == distinct_nonempty(base_tags + views(it.tags@).take(k as int)),
            decreases it.tags.len() - k,
        {
            proof {
                let x = base_tags + views(it.tags@).take(k + 1);
                assert(x.drop_last() =~= base_tags + views(it.tags@).take(k as int));
                assert(x.last() == it.tags@[k as int]@);
            }
            add_distinct(&mut tags, &it.tags[k]);
            k = k + 1;
        }
        proof {
            assert(views(it.tags@).take(it.tags@.len() as int) =~= views(it.tags@));
            assert(all_tags(post) =~= base_tags + views(it.tags@));
        }
        i = i + 1;
    }
    assert(s.take(n as int) =~= s);
    if n == 0 || (copyrights.len() == 0 && artists.len() == 0 && tags.len() == 0) {
        None
    } else {
        Some((copyrights, artists, tags))
    }
}

/// The items with every item at `path` left out, in their order.
pub open spec fn without_path(items: Seq<Arc<MediaItem>>, path: Seq<char>) -> Seq<Arc<MediaItem>> {
    items.filter(not_at(path))
}

/// The test that an item is not at `path`.
pub open spec fn not_at(path: Seq<char>) -> spec_fn(Arc<MediaItem>) -> bool {
    |a: Arc<MediaItem>| a.path@ != path
}

/// Filtering a sequence whose elements all pass keeps it whole.
proof fn lemma_filter_all_pass<A>(s: Seq<A>, f: spec_fn(A) -> bool)
    requires
        forall|i: int| 0 <= i < s.len() ==> f(#[trigger] s[i]),
    ensures
        s.filter(f) == s,
    decreases s.len(),
{
    reveal(Seq::filter);
    if s.len() > 0 {
        lemma_filter_all_pass(s.drop_last(), f);
        assert(f(s[s.len() - 1]));
        assert(s.drop_last().push(s.last()) =~= s);
    } else {
        assert(s.filter(f) =~= s);
    }
}

/// Filtering twice with the same test filters once.
proof fn lemma_filter_twice<A>(s: Seq<A>, f: spec_fn(A) -> bool)
    ensures
        s.filter(f).filter(f) == s.filter(f),
{
    let r = s.filter(f);
    assert forall|i: int| 0 <= i < r.len() implies f(#[trigger] r[i]) by {
        s.lemma_filter_pred(f, i);
    }
    lemma_filter_all_pass(r, f);
}

/// Leaving out the items at a path a second time changes nothing.
pub proof fn lemma_remove_path_twice(items: Seq<Arc<MediaItem>>, path: Seq<char>)
    ensures
        without_path(without_path(items, path), path) == without_path(items, path),
{
    lemma_filter_twice(items, not_at(path));
}

/// Leaves out of `items` every item at `path` (a deleted file).
pub fn remove_path(items: &mut Vec<Arc<MediaItem>>, path: &str)
    ensures
        final(items)@ == without_path(old(items)@, path@),
{
    let ghost pred = not_at(path@);
    let ghost orig = items@;
    let mut out: Vec<Arc<MediaItem>> = Vec::new();
    let mut i: usize = 0;
    let p = chars_of(path);
    while i < items.len()
        invariant
            i <= items@.len(),
            items@ == orig,
            p@ == path@,
            pred == not_at(path@),
            out@ == orig.take(i as int).filter(pred),
        decreases items.len() - i,
    {
        proof {
            reveal(Seq::filter);
            assert(orig.take(i + 1).drop_last() =~= orig.take(i as int));
            assert(orig.take(i + 1).last() == orig[i as int]);
        }
        let same = crate::media::same_text(chars_of(items[i].path.as_str()).as_slice(), p.as_slice());
        if !same {
            out.push(share(&items[i]));
        }
        i = i + 1;
    }
    assert(orig.take(orig.len() as int) =~= orig);
    *items = out;
}

/// Whether `i` is the first position of `items` holding the file at `path`.
pub open spec fn first_at(items: Seq<Arc<MediaItem>>, path: Seq<char>, i: int) -> bool {
    &&& 0 <= i < items.len()
    &&& items[i].path@ == path
    &&& forall|j: int| 0 <= j < i ==> #[trigger] items[j].path@ != path
}

/// Whether `b` is the item `a` moved to `new_path` and renamed `new_name`,
/// with its metadata kept.
pub open spec fn moved_item(a: MediaItem, b: MediaItem, new_path: Seq<char>, new_name: Seq<char>) -> bool {
    &&& b.path@ == new_path
    &&& b.name@ == new_name
    &&& b.media_type == a.media_type
    &&& b.copyright@ == a.copyright@
    &&& b.artist@ == a.artist@
    &&& views(b.characters@) == views(a.characters@)
    &&& views(b.tags@) == views(a.tags@)
    &&& b.modified == a.modified
}

/// Follows the rename of the file at `old_path` to `new_path` (named
/// `new_name`) in the shown items: the first item at `old_path` is replaced by
/// the same item at its new place; nothing changes if no item is there.
pub fn follow_rename(items: &mut Vec<Arc<MediaItem>>, old_path: &str, new_path: &str, new_name: &str)
    ensures
        final(items)@.len() == old(items)@.len(),
        forall|i: int|
            first_at(old(items)@, old_path@, i) ==> {
                &&& moved_item(*old(items)@[i], *final(items)@[i], new_path@, new_name@)
                &&& forall|j: int| 0 <= j < old(items)@.len() && j != i ==> #[trigger] final(items)@[j] == old(items)@[j]
            },
        (forall|i: int| 0 <= i < old(items)@.len() ==> #[trigger] old(items)@[i].path@ != old_path@)
            ==> final(items)@ == old(items)@,
{
    let p = chars_of(old_path);
    let mut i: usize = 0;
    while i < items.len()
        invariant
            i <= items@.len(),
            items@ == old(items)@,
            p@ == old_path@,
            forall|j: int| 0 <= j < i ==> #[trigger] items@[j].path@ != old_path@,
        decreases items.len() - i,
    {
        if crate::media::same_text(chars_of(items[i].path.as_str()).as_slice(), p.as_slice()) {
            let a = &items[i];
            let moved = MediaItem {
                path: crate::text::string_of(chars_of(new_path).as_slice()),
                name: crate::text::string_of(chars_of(new_name).as_slice()),
                media_type: a.media_type,
                copyright: a.copyright.clone(),
                artist: a.artist.clone(),
                characters: clone_strings(&a.characters),
                tags: clone_strings(&a.tags),
                modified: a.modified,
            };
            let ghost before = items@;
            items.set(i, Arc::new(moved));
            proof {
                assert forall|k: int| first_at(before, old_path@, k) implies k == i by {
                    if k < i {
                    } else if k > i {
                        assert(before[i as int].path@ != old_path@);
                    }
                }
            }
            return;
        }
        i = i + 1;
    }
}

} // verus!

//! Which thumbnails stay loaded: at most `MAX_READY` of them, the one loaded
//! longest ago making room for a new one.
use vstd::prelude::*;
use crate::text::views;
use std::collections::VecDeque;

verus! {

/// How many thumbnails stay loaded at most.
pub const MAX_READY: usize = 600;

/// The views of a list of (path, sequence number) entries.
pub open spec fn entries(v: Seq<(String, u64)>) -> Seq<(Seq<char>, u64)> {
    v.map_values(|e: (String, u64)| (e.0@, e.1))
}

/// Whether the entry at `i` of `l` was used longest ago: no entry has a
/// smaller sequence number.
pub open spec fn oldest_at(l: Seq<(Seq<char>, u64)>, i: int) -> bool {
    &&& 0 <= i < l.len()
    &&& forall|j: int| 0 <= j < l.len() ==> l[i].1 <= #[trigger] l[j].1
}

/// Which thumbnails are loaded and in which order they were last used.
///
/// Each loaded thumbnail has the sequence number of its latest load or use;
/// the queue lists loads and uses oldest first, and an entry whose number is
/// no longer its path's latest is stale and skipped when making room.
pub struct TextureLru {
    loaded: Vec<(String, u64)>,
    queue: VecDeque<(String, u64)>,
    seq_counter: u64,
}

impl TextureLru {
    /// The paths of the loaded thumbnails.
    pub closed spec fn loaded_paths(&self) -> Seq<Seq<char>> {
        entries(self.loaded@).map_values(|e: (Seq<char>, u64)| e.0)
    }

    /// How many loads were recorded.
    pub closed spec fn loads(&self) -> u64 {
        self.seq_counter
    }

    /// Each loaded path with the sequence number of its latest load or use.
    pub closed spec fn loaded_entries(&self) -> Seq<(Seq<char>, u64)> {
        entries(self.loaded@)
    }

    /// The bookkeeping holds together: no path is loaded twice, at most
    /// `MAX_READY` are loaded, the latest load or use of each loaded path waits in
    /// the queue, and the queue lists loads in the order they were recorded.
    pub closed spec fn wf(&self) -> bool {
        let l = entries(self.loaded@);
        let q = entries(self.queue@);
        &&& l.len() <= MAX_READY
        &&& forall|i: int, j: int| 0 <= i < j < l.len() ==> l[i].0 != l[j].0
        &&& forall|i: int| 0 <= i < l.len() ==> #[trigger] q.contains(l[i])
        &&& forall|i: int, j: int| 0 <= i <= j < q.len() ==> #[trigger] q[i].1 <= #[trigger] q[j].1
        &&& forall|i: int| 0 <= i < q.len() ==> #[trigger] q[i].1 <= self.seq_counter
    }

    /// However many thumbnails are recorded, at most `MAX_READY` stay loaded,
    /// and no path is loaded twice.
    pub proof fn lemma_loaded_bounded(&self)
        requires
            self.wf(),
        ensures
            self.loaded_paths().len() <= MAX_READY,
            self.loaded_paths().no_duplicates(),
    {
        let l = entries(self.loaded@);
        assert forall|i: int, j: int|
            0 <= i < self.loaded_paths().len() && 0 <= j < self.loaded_paths().len() && i != j
            implies self.loaded_paths()[i] != self.loaded_paths()[j] by {
            assert(self.loaded_paths()[i] == l[i].0);
            assert(self.loaded_paths()[j] == l[j].0);
        }
    }

    /// Nothing loaded.
    pub fn new() -> (r: Self)
        ensures
            r.wf(),
            r.loaded_paths().len() == 0,
            r.loads() == 0,
    {
        TextureLru { loaded: Vec::new(), queue: VecDeque::new(), seq_counter: 0 }
    }

    /// Whether the thumbnail of `path` is loaded.
    pub fn contains(&self, path: &String) -> (r: bool)
        ensures
            r == self.loaded_paths().contains(path@),
    {
        let ghost lp = self.loaded_paths();
        let mut i: usize = 0;
        while i < self.loaded.len()
            invariant
                i <= self.loaded@.len(),
                lp == self.loaded_paths(),
                lp.len() == self.loaded@.len(),
                forall|k: int| 0 <= k < i ==> lp[k] != path@,
            decreases self.loaded.len() - i,
        {
            assert(lp[i as int] == self.loaded@[i as int].0@);
            if self.loaded[i].0 == *path {
                return true;
            }
            i = i + 1;
        }
        false
    }

    /// How many thumbnails are loaded.
    pub fn len(&self) -> (r: usize)
        ensures
            r == self.loaded_paths().len(),
    {
        self.loaded.len()
    }

    /// The position of the loaded entry of `path`, if any.
    fn position_of(&self, path: &String) -> (r: Option<usize>)
        ensures
            match r {
                Some(j) => j < self.loaded@.len() && entries(self.loaded@)[j as int].0 == path@,
                None => forall|k: int| 0 <= k < self.loaded@.len() ==> entries(self.loaded@)[k].0 != path@,
            },
    {
        let ghost l = entries(self.loaded@);
        let mut j: usize = 0;
        while j < self.loaded.len()
            invariant
                j <= self.loaded@.len(),
                l == entries(self.loaded@),
                forall|k: int| 0 <= k < j ==> l[k].0 != path@,
            decreases self.loaded.len() - j,
        {
            assert(l[j as int].0 == self.loaded@[j as int].0@);
            if self.loaded[j].0 == *path {
                return Some(j);
            }
            j = j + 1;
        }
        None
    }

    /// The position of the loaded entry equal to (`p`, `s`), if any.
    fn find_entry(&self, p: &String, s: u64) -> (r: Option<usize>)
        ensures
            match r {
                Some(j) => j < self.loaded@.len() && entries(self.loaded@)[j as int] == (p@, s),
                None => !entries(self.loaded@).contains((p@, s)),
            },
    {
        let ghost l = entries(self.loaded@);
        let mut j: usize = 0;
        while j < self.loaded.len()
            invariant
                j <= self.loaded@.len(),
                l == entries(self.loaded@),
                forall|k: int| 0 <= k < j ==> l[k] != (p@, s),
            decreases self.loaded.len() - j,
        {
            assert(l[j as int] == (self.loaded@[j as int].0@, self.loaded@[j as int].1));
            if self.loaded[j].1 == s && self.loaded[j].0 == *p {
                return Some(j);
            }
            j = j + 1;
        }
        proof {
            false_witness(l, (p@, s));
        }
        None
    }

    /// Unloads the thumbnail used longest ago, skipping stale queue entries;
    /// returns its path.
    fn evict_one(&mut self) -> (r: Option<String>)
        requires
            old(self).wf(),
            old(self).loaded@.len() > 0,
        ensures
            final(self).wf(),
            final(self).seq_counter == old(self).seq_counter,
            r matches Some(e) && exists|i: int|
                #![trigger entries(old(self).loaded@)[i]]
                oldest_at(entries(old(self).loaded@), i) && entries(old(self).loaded@)[i].0 == e@
                    && entries(final(self).loaded@) == entries(old(self).loaded@).remove(i),
    {
        loop
            invariant
                self.wf(),
                self.loaded@.len() == old(self).loaded@.len() > 0,
                self.loaded@ == old(self).loaded@,
                self.seq_counter == old(self).seq_counter,
            decreases self.queue@.len(),
        {
            let ghost q0 = entries(self.queue@);
            let ghost l = entries(self.loaded@);
            let (p, s) = match self.queue.pop_front() {
                Some(e) => e,
                None => {
                    proof {
                        assert(q0.contains(l[0]));
                    }
                    return None;
                },
            };
            let ghost q1 = entries(self.queue@);
            assert(q0 =~= seq![(p@, s)] + q1);
            proof {
                assert forall|a: int, b: int| 0 <= a <= b < q1.len() implies #[trigger] q1[a].1 <= #[trigger] q1[b].1 by {
                    assert(q1[a] == q0[a + 1]);
                    assert(q1[b] == q0[b + 1]);
                }
                assert forall|a: int| 0 <= a < q1.len() implies #[trigger] q1[a].1 <= self.seq_counter by {
                    assert(q1[a] == q0[a + 1]);
                }
            }
            match self.find_entry(&p, s) {
                None => {
                    proof {
                        assert forall|i: int| 0 <= i < l.len() implies #[trigger] q1.contains(l[i]) by {
                            assert(q0.contains(l[i]));
                            let k = choose|k: int| 0 <= k < q0.len() && q0[k] == l[i];
                            assert(k != 0);
                            assert(q1[k - 1] == l[i]);
                        }
                    }
                },
                Some(j) => {
                    let ghost l0 = l;
                    self.loaded.remove(j);
                    proof {
                        let l1 = entries(self.loaded@);
                        assert(l1 =~= l0.remove(j as int));
                        assert forall|i: int| 0 <= i < l1.len() implies #[trigger] q1.contains(l1[i]) by {
                            let oi = if i < j { i } else { i + 1 };
                            assert(l1[i] == l0[oi]);
                            assert(q0.contains(l0[oi]));
                            let k = choose|k: int| 0 <= k < q0.len() && q0[k] == l0[oi];
                            if k == 0 {
                                assert(l0[oi].0 == l0[j as int].0);
                            }
                            assert(q1[k - 1] == l1[i]);
                        }
                        assert forall|a: int, b: int| 0 <= a < b < l1.len() implies l1[a].0 != l1[b].0 by {
                            let oa = if a < j { a } else { a + 1 };
                            let ob = if b < j { b } else { b + 1 };
                            assert(l1[a] == l0[oa]);
                            assert(l1[b] == l0[ob]);
                        }
                        assert forall|k: int| 0 <= k < l0.len() implies l0[j as int].1 <= #[trigger] l0[k].1 by {
                            assert(q0.contains(l0[k]));
                            let m = choose|m: int| 0 <= m < q0.len() && q0[m] == l0[k];
                            assert(q0[0].1 <= q0[m].1);
                        }
                        assert(oldest_at(l0, j as int));
                    }
                    return Some(p);
                },
            }
        }
    }

    /// Records that the loaded thumbnail of `path` was used: it becomes the
    /// most recently used. Nothing changes when it is not loaded. Returns
    /// whether it is loaded.
    pub fn touch(&mut self, path: &String) -> (hit: bool)
        requires
            old(self).wf(),
            old(self).loads() < u64::MAX,
        ensures
            final(self).wf(),
            hit == old(self).loaded_paths().contains(path@),
            hit ==> {
                &&& final(self).loads() == old(self).loads() + 1
                &&& final(self).loaded_entries().contains((path@, final(self).loads()))
                &&& final(self).loaded_paths() == old(self).loaded_paths()
                &&& forall|x: (Seq<char>, u64)|
                    #[trigger] final(self).loaded_entries().contains(x) && x.0 != path@
                        ==> old(self).loaded_entries().contains(x)
            },
            !hit ==> *final(self) == *old(self),
    {
        let pos = self.position_of(path);
        let j: usize = match pos {
            Some(j) => j,
            None => {
                proof {
                    if self.loaded_paths().contains(path@) {
                        let k = choose|k: int| 0 <= k < self.loaded_paths().len() && self.loaded_paths()[k] == path@;
                        assert(self.loaded_paths()[k] == entries(self.loaded@)[k].0);
                    }
                }
                return false;
            },
        };
        let ghost l0 = entries(self.loaded@);
        let ghost p0 = self.loaded_paths();
        assert(p0[j as int] == l0[j as int].0);
        self.seq_counter = self.seq_counter + 1;
        let seq = self.seq_counter;
        let ghost q0 = entries(self.queue@);
        self.queue.push_back((path.clone(), seq));
        let ghost q1 = entries(self.queue@);
        assert(q1 =~= q0.push((path@, seq)));
        self.loaded.set(j, (path.clone(), seq));
        proof {
            let l1 = entries(self.loaded@);
            assert(l1 =~= l0.update(j as int, (path@, seq)));
            assert forall|a: int, b: int| 0 <= a <= b < q1.len() implies #[trigger] q1[a].1 <= #[trigger] q1[b].1 by {
                if b < q0.len() {
                    assert(q1[a] == q0[a]);
                    assert(q1[b] == q0[b]);
                } else if a < q0.len() {
                    assert(q1[a] == q0[a]);
                }
            }
            assert forall|a: int| 0 <= a < q1.len() implies #[trigger] q1[a].1 <= self.seq_counter by {
                if a < q0.len() {
                    assert(q1[a] == q0[a]);
                }
            }
            assert forall|a: int, b: int| 0 <= a < b < l1.len() implies l1[a].0 != l1[b].0 by {
                if a == j {
                    assert(l0[b].0 != l0[j as int].0);
                } else if b == j {
                    assert(l0[a].0 != l0[j as int].0);
                }
            }
            assert forall|i: int| 0 <= i < l1.len() implies #[trigger] q1.contains(l1[i]) by {
                if i == j {
                    assert(q1[q0.len() as int] == l1[i]);
                } else {
                    assert(l1[i] == l0[i]);
                    assert(q0.contains(l0[i]));
                    let k = choose|k: int| 0 <= k < q0.len() && q0[k] == l0[i];
                    assert(q1[k] == l1[i]);
                }
            }
            assert(l1[j as int] == (path@, seq));
            assert(self.loaded_entries().contains((path@, seq)));
            assert(self.loaded_paths() =~= p0);
            assert forall|x: (Seq<char>, u64)| #[trigger] l1.contains(x) && x.0 != path@ implies l0.contains(x) by {
                let k = choose|k: int| 0 <= k < l1.len() && l1[k] == x;
                assert(k != j);
                assert(l0[k] == x);
            }
        }
        true
    }

    /// Records that the thumbnail of `path` was loaded. When `MAX_READY`
    /// thumbnails are loaded, the one used longest ago is first unloaded and
    /// its path returned, so that the caller drops it too.
    pub fn record_loaded(&mut self, path: String) -> (evicted: Option<String>)
        requires
            old(self).wf(),
            old(self).loads() < u64::MAX,
        ensures
            final(self).wf(),
            final(self).loads() == old(self).loads() + 1,
            final(self).loaded_entries().contains((path@, final(self).loads())),
            (evicted is Some) == (old(self).loaded_paths().len() >= MAX_READY),
            evicted matches Some(e) ==> exists|i: int|
                #![trigger old(self).loaded_entries()[i]]
                oldest_at(old(self).loaded_entries(), i) && old(self).loaded_entries()[i].0 == e@,
            evicted matches Some(e) ==> old(self).loaded_paths().contains(e@),
            evicted matches Some(e) ==> (e@ != path@ ==> !final(self).loaded_paths().contains(e@)),
            final(self).loaded_paths().len() <= MAX_READY,
            forall|x: Seq<char>|
                #[trigger] final(self).loaded_paths().contains(x) <==> (x == path@ || (
                old(self).loaded_paths().contains(x) && !(evicted matches Some(e) && e@ == x))),
            forall|x: (Seq<char>, u64)|
                #[trigger] final(self).loaded_entries().contains(x) && x.0 != path@
                    ==> old(self).loaded_entries().contains(x),
            evicted is None ==> final(self).loaded_paths().len() == old(self).loaded_paths().len()
                + if old(self).loaded_paths().contains(path@) { 0int } else { 1int },
    {
        let ghost l_old = entries(self.loaded@);
        let mut evicted: Option<String> = None;
        if self.loaded.len() >= MAX_READY {
            evicted = self.evict_one();
        }
        let ghost mid = *self;
        let ghost l0 = entries(self.loaded@);
        proof {
            // What is still loaded was loaded before, and only the evicted path left.
            if self.loaded@.len() != old(self).loaded@.len() {
                let e = evicted->0;
                let i = choose|i: int|
                    #![trigger l_old[i]]
                    oldest_at(l_old, i) && l_old[i].0 == e@ && l0 == l_old.remove(i);
                assert(old(self).loaded_entries()[i] == l_old[i]);
                assert(oldest_at(old(self).loaded_entries(), i));
                assert(old(self).loaded_paths()[i] == l_old[i].0);
                assert forall|x: (Seq<char>, u64)| l0.contains(x) implies l_old.contains(x) by {
                    let k = choose|k: int| 0 <= k < l0.len() && l0[k] == x;
                    let ok = if k < i { k } else { k + 1 };
                    assert(l_old[ok] == x);
                }
                assert forall|x: Seq<char>| mid.loaded_paths().contains(x) <==> (
                    old(self).loaded_paths().contains(x) && e@ != x) by {
                    if mid.loaded_paths().contains(x) {
                        let k = choose|k: int| 0 <= k < mid.loaded_paths().len() && mid.loaded_paths()[k] == x;
                        let ok = if k < i { k } else { k + 1 };
                        assert(mid.loaded_paths()[k] == l0[k].0);
                        assert(l0[k] == l_old[ok]);
                        assert(old(self).loaded_paths()[ok] == l_old[ok].0);
                        assert(ok != i);
                    }
                    if old(self).loaded_paths().contains(x) && e@ != x {
                        let k = choose|k: int| 0 <= k < old(self).loaded_paths().len() && old(self).loaded_paths()[k] == x;
                        assert(old(self).loaded_paths()[k] == l_old[k].0);
                        assert(k != i);
                        let nk = if k < i { k } else { k - 1 };
                        assert(l0[nk] == l_old[k]);
                        assert(mid.loaded_paths()[nk] == l0[nk].0);
                    }
                }
            } else {
                assert(l0 == l_old);
                assert(mid.loaded_paths() =~= old(self).loaded_paths());
            }
        }
        self.seq_counter = self.seq_counter + 1;
        let seq = self.seq_counter;
        let pos = self.position_of(&path);
        let found = pos.is_some();
        let j: usize = match pos {
            Some(j) => j,
            None => 0,
        };
        let ghost q0 = entries(self.queue@);
        self.queue.push_back((path.clone(), seq));
        let ghost q1 = entries(self.queue@);
        assert(q1 =~= q0.push((path@, seq)));
        if found {
            self.loaded.set(j, (path, seq));
        } else {
            self.loaded.push((path, seq));
        }
        proof {
            let l1 = entries(self.loaded@);
            if found {
                assert(l1 =~= l0.update(j as int, (path@, seq)));
            } else {
                assert(l1 =~= l0.push((path@, seq)));
            }
            assert(l1.len() <= MAX_READY);
            assert forall|a: int, b: int| 0 <= a <= b < q1.len() implies #[trigger] q1[a].1 <= #[trigger] q1[b].1 by {
                if b < q0.len() {
                    assert(q1[a] == q0[a]);
                    assert(q1[b] == q0[b]);
                } else if a < q0.len() {
                    assert(q1[a] == q0[a]);
                }
            }
            assert forall|a: int| 0 <= a < q1.len() implies #[trigger] q1[a].1 <= self.seq_counter by {
                if a < q0.len() {
                    assert(q1[a] == q0[a]);
                }
            }
            assert forall|a: int, b: int| 0 <= a < b < l1.len() implies l1[a].0 != l1[b].0 by {
                if found {
                    if a == j {
                        assert(l0[b].0 != l0[j as int].0);
                    } else if b == j {
                        assert(l0[a].0 != l0[j as int].0);
                    }
                } else {
                    if b == l0.len() {
                        assert(l0[a].0 != path@);
                    }
                }
            }
            assert forall|i: int| 0 <= i < l1.len() implies #[trigger] q1.contains(l1[i]) by {
                if (found && i == j) || (!found && i == l0.len()) {
                    assert(q1[q0.len() as int] == l1[i]);
                } else {
                    assert(l1[i] == l0[i]);
                    assert(q0.contains(l0[i]));
                    let k = choose|k: int| 0 <= k < q0.len() && q0[k] == l0[i];
                    assert(q1[k] == l1[i]);
                }
            }
            let w = if found { j as int } else { l0.len() as int };
            assert(l1[w] == (path@, seq));
            assert(self.loaded_paths()[w] == l1[w].0);
            assert(self.loaded_entries().contains((path@, seq)));
            assert forall|x: (Seq<char>, u64)| #[trigger] l1.contains(x) && x.0 != path@ implies l0.contains(x) by {
                let k = choose|k: int| 0 <= k < l1.len() && l1[k] == x;
                assert(k != w);
                assert(l0[k] == x);
            }
            assert forall|x: Seq<char>| #[trigger] self.loaded_paths().contains(x) <==> (x == path@
                || mid.loaded_paths().contains(x)) by {
                if self.loaded_paths().contains(x) && x != path@ {
                    let k = choose|k: int| 0 <= k < self.loaded_paths().len() && self.loaded_paths()[k] == x;
                    assert(self.loaded_paths()[k] == l1[k].0);
                    assert(k != w);
                    assert(mid.loaded_paths()[k] == l0[k].0);
                }
                if mid.loaded_paths().contains(x) {
                    let k = choose|k: int| 0 <= k < mid.loaded_paths().len() && mid.loaded_paths()[k] == x;
                    assert(mid.loaded_paths()[k] == l0[k].0);
                    if k != w {
                        assert(self.loaded_paths()[k] == l1[k].0);
                    }
                }
            }
            if found {
                assert(l0[j as int].0 == path@);
                assert(mid.loaded_paths().contains(path@)) by {
                    assert(mid.loaded_paths()[j as int] == l0[j as int].0);
                }
            } else {
                assert(!mid.loaded_paths().contains(path@)) by {
                    if mid.loaded_paths().contains(path@) {
                        let k = choose|k: int| 0 <= k < mid.loaded_paths().len() && mid.loaded_paths()[k] == path@;
                        assert(mid.loaded_paths()[k] == l0[k].0);
                        assert(l0[k].0 != path@);
                    }
                }
            }
        }
        evicted
    }
}

/// A sequence in which no element equals `x` does not contain it.
proof fn false_witness(l: Seq<(Seq<char>, u64)>, x: (Seq<char>, u64))
    requires
        forall|k: int| 0 <= k < l.len() ==> l[k] != x,
    ensures
        !l.contains(x),
{
}

/// Whether `v` holds a string whose characters are `x`.
fn holds_str(v: &Vec<String>, x: &String) -> (r: bool)
    ensures
        r == views(v@).contains(x@),
{
    let mut i: usize = 0;
    while i < v.len()
        invariant
            i <= v@.len(),
            forall|k: int| 0 <= k < i ==> v@[k]@ != x@,
        decreases v.len() - i,
    {
        if v[i] == *x {
            assert(views(v@)[i as int] == x@);
            return true;
        }
        i = i + 1;
    }
    assert forall|k: int| 0 <= k < views(v@).len() implies views(v@)[k] != x@ by {
        assert(views(v@)[k] == v@[k]@);
    }
    false
}

/// Removes every string with the characters of `x` from `v`.
fn drop_str(v: &mut Vec<String>, x: &String)
    ensures
        views(final(v)@).to_set() == views(old(v)@).to_set().remove(x@),
{
    let ghost orig = views(v@);
    let mut out: Vec<String> = Vec::new();
    let mut i: usize = 0;
    while i < v.len()
        invariant
            i <= v@.len(),
            orig == views(v@),
            forall|y: Seq<char>| #[trigger] views(out@).contains(y) <==> (y != x@ && orig.take(i as int).contains(y)),
        decreases v.len() - i,
    {
        let ghost before = views(out@);
        if v[i] != *x {
            out.push(v[i].clone());
            assert(views(out@) =~= before.push(v@[i as int]@));
        }
        assert forall|y: Seq<char>| #[trigger] views(out@).contains(y) <==> (y != x@ && orig.take(i + 1).contains(y)) by {
            assert(orig.take(i + 1) =~= orig.take(i as int).push(orig[i as int]));
            assert(orig[i as int] == v@[i as int]@);
            if orig.take(i + 1).contains(y) && y != x@ {
                let k = choose|k: int| 0 <= k < i + 1 && #[trigger] orig.take(i + 1)[k] == y;
                if k < i {
                    assert(orig.take(i as int)[k] == y);
                } else {
                    assert(views(out@)[views(out@).len() - 1] == y);
                }
            }
            if views(out@).contains(y) && !before.contains(y) {
                assert(views(out@).len() == before.len() + 1);
                let k = choose|k: int| 0 <= k < views(out@).len() && #[trigger] views(out@)[k] == y;
                if k < before.len() {
                    assert(before[k] == y);
                }
                assert(orig.take(i + 1)[i as int] == y);
            }
            if before.contains(y) {
                let k = choose|k: int| 0 <= k < before.len() && #[trigger] before[k] == y;
                assert(views(out@)[k] == y);
                let m = choose|m: int| 0 <= m < i && #[trigger] orig.take(i as int)[m] == y;
                assert(orig.take(i + 1)[m] == y);
            }
        }
        i = i + 1;
    }
    assert(orig.take(orig.len() as int) =~= orig);
    assert(views(out@).to_set() =~= orig.to_set().remove(x@));
    *v = out;
}

/// What a card is to show for a thumbnail.
#[derive(Clone, Copy, Debug, PartialEq, Eq, Structural)]
pub enum ThumbRequest {
    /// The thumbnail is loaded.
    Ready,
    /// The thumbnail is loading or failed: a placeholder stands in.
    Placeholder,
    /// The thumbnail is to be asked for (a placeholder stands in meanwhile).
    Load,
}

/// The bookkeeping of thumbnail loading: which are loaded, which are being
/// loaded, which failed, and the generation of the requests still wanted.
pub struct ThumbnailState {
    lru: TextureLru,
    loading: Vec<String>,
    failed: Vec<String>,
    generation: u64,
}

impl ThumbnailState {
    /// The paths whose thumbnails are loaded.
    pub closed spec fn ready(&self) -> Set<Seq<char>> {
        self.lru.loaded_paths().to_set()
    }

    /// How many thumbnails are loaded.
    pub closed spec fn ready_count(&self) -> nat {
        self.lru.loaded_paths().len()
    }

    /// Each loaded path with the sequence number of its latest load or use.
    pub closed spec fn loaded_entries(&self) -> Seq<(Seq<char>, u64)> {
        self.lru.loaded_entries()
    }

    /// The paths whose thumbnails are being loaded.
    pub closed spec fn loading(&self) -> Set<Seq<char>> {
        views(self.loading@).to_set()
    }

    /// The paths whose thumbnails failed to load.
    pub closed spec fn failed(&self) -> Set<Seq<char>> {
        views(self.failed@).to_set()
    }

    /// The generation of the requests still wanted.
    pub closed spec fn current_generation(&self) -> u64 {
        self.generation
    }

    /// How many loads were recorded.
    pub closed spec fn loads(&self) -> u64 {
        self.lru.loads()
    }

    /// The bookkeeping holds together (at most `MAX_READY` loaded).
    pub closed spec fn wf(&self) -> bool {
        self.lru.wf()
    }

    /// Nothing loaded, loading or failed.
    pub fn new() -> (r: Self)
        ensures
            r.wf(),
            r.ready_count() <= MAX_READY,
            r.ready().len() == 0,
            r.loading().len() == 0,
            r.failed().len() == 0,
            r.current_generation() == 0,
            r.loads() == 0,
    {
        let r = ThumbnailState { lru: TextureLru::new(), loading: Vec::new(), failed: Vec::new(), generation: 0 };
        assert(r.ready() =~= Set::empty());
        assert(r.loading() =~= Set::empty());
        assert(r.failed() =~= Set::empty());
        r
    }

    /// The generation that new requests carry.
    pub fn generation(&self) -> (r: u64)
        ensures
            r == self.current_generation(),
    {
        self.generation
    }

    /// What a visible card shows for the thumbnail of `path`. A loaded
    /// thumbnail shown this way becomes the most recently used one.
    pub fn visible_request(&mut self, path: &String) -> (r: ThumbRequest)
        requires
            old(self).wf(),
            old(self).loads() < u64::MAX,
        ensures
            r == if old(self).ready().contains(path@) {
                ThumbRequest::Ready
            } else if old(self).loading().contains(path@) || old(self).failed().contains(path@) {
                ThumbRequest::Placeholder
            } else {
                ThumbRequest::Load
            },
            final(self).wf(),
            final(self).ready_count() <= MAX_READY,
            final(self).ready() == old(self).ready(),
            final(self).ready_count() == old(self).ready_count(),
            final(self).loading() == old(self).loading(),
            final(self).failed() == old(self).failed(),
            final(self).current_generation() == old(self).current_generation(),
            r == ThumbRequest::Ready ==> {
                &&& final(self).loads() == old(self).loads() + 1
                &&& final(self).loaded_entries().contains((path@, final(self).loads()))
                &&& forall|x: (Seq<char>, u64)|
                    #[trigger] final(self).loaded_entries().contains(x) && x.0 != path@
                        ==> old(self).loaded_entries().contains(x)
            },
            r != ThumbRequest::Ready ==> *final(self) == *old(self),
    {
        if self.lru.touch(path) {
            return ThumbRequest::Ready;
        }
        if holds_str(&self.loading, path) || holds_str(&self.failed, path) {
            return ThumbRequest::Placeholder;
        }
        ThumbRequest::Load
    }

    /// Whether the thumbnail of `path` is to be asked for ahead of time: only
    /// when no visible request waits and it is neither loaded, loading nor failed.
    pub fn prefetch_wanted(&self, path: &String, visible_pending: usize) -> (r: bool)
        ensures
            r == (visible_pending == 0 && !self.ready().contains(path@) && !self.loading().contains(
                path@,
            ) && !self.failed().contains(path@)),
    {
        if visible_pending > 0 {
            return false;
        }
        !(self.lru.contains(path) || holds_str(&self.loading, path) || holds_str(&self.failed, path))
    }

    /// Records that the thumbnail of `path` was asked for.
    pub fn mark_loading(&mut self, path: String)
        requires
            old(self).wf(),
        ensures
            final(self).wf(),
            final(self).ready_count() <= MAX_READY,
            final(self).loading() == old(self).loading().insert(path@),
            final(self).ready() == old(self).ready(),
            final(self).failed() == old(self).failed(),
            final(self).current_generation() == old(self).current_generation(),
            final(self).loads() == old(self).loads(),
    {
        let ghost before = views(self.loading@);
        self.loading.push(path);
        assert(views(self.loading@) =~= before.push(path@));
        assert(views(self.loading@).to_set() =~= before.to_set().insert(path@)) by {
            assert forall|y: Seq<char>| views(self.loading@).contains(y) <==> before.to_set().insert(path@).contains(y) by {
                if views(self.loading@).contains(y) {
                    let k = choose|k: int| 0 <= k < views(self.loading@).len() && #[trigger] views(self.loading@)[k] == y;
                    if k < before.len() {
                        assert(before[k] == y);
                    }
                }
                if before.contains(y) {
                    let k = choose|k: int| 0 <= k < before.len() && #[trigger] before[k] == y;
                    assert(views(self.loading@)[k] == y);
                }
                if y == path@ {
                    assert(views(self.loading@)[before.len() as int] == y);
                }
            }
        }
    }

    /// Forgets the requests still on their way and every failure, so that
    /// thumbnails are asked for anew; the loaded ones stay.
    pub fn invalidate(&mut self)
        requires
            old(self).wf(),
        ensures
            final(self).wf(),
            final(self).ready_count() <= MAX_READY,
            final(self).current_generation() == old(self).current_generation().wrapping_add(1),
            final(self).loading().len() == 0,
            final(self).failed().len() == 0,
            final(self).ready() == old(self).ready(),
            final(self).loads() == old(self).loads(),
    {
        self.generation = self.generation.wrapping_add(1);
        self.loading = Vec::new();
        self.failed = Vec::new();
        assert(self.loading() =~= Set::empty());
        assert(self.failed() =~= Set::empty());
    }

    /// Records that the thumbnail of `path` loaded. When `MAX_READY` are
    /// loaded, the one used longest ago is unloaded and its path returned.
    pub fn loaded(&mut self, path: String) -> (evicted: Option<String>)
        requires
            old(self).wf(),
            old(self).loads() < u64::MAX,
        ensures
            final(self).wf(),
            final(self).loaded_entries().contains((path@, final(self).loads())),
            forall|x: Seq<char>|
                #[trigger] final(self).ready().contains(x) <==> (x == path@ || (old(self).ready().contains(x)
                    && !(evicted matches Some(e) && e@ == x))),
            final(self).loading() == old(self).loading().remove(path@),
            final(self).failed() == old(self).failed(),
            final(self).loads() == old(self).loads() + 1,
            (evicted is Some) == (old(self).ready_count() >= MAX_READY),
            evicted matches Some(e) ==> exists|i: int|
                #![trigger old(self).loaded_entries()[i]]
                oldest_at(old(self).loaded_entries(), i) && old(self).loaded_entries()[i].0 == e@,
            evicted matches Some(e) ==> old(self).ready().contains(e@),
            evicted matches Some(e) ==> (e@ != path@ ==> !final(self).ready().contains(e@)),
            final(self).ready_count() <= MAX_READY,
            final(self).current_generation() == old(self).current_generation(),
    {
        drop_str(&mut self.loading, &path);
        let ghost lru0 = self.lru;
        let evicted = self.lru.record_loaded(path);
        proof {
            if evicted is Some {
                let e = evicted->0;
                let i = choose|i: int|
                    #![trigger lru0.loaded_entries()[i]]
                    oldest_at(lru0.loaded_entries(), i) && lru0.loaded_entries()[i].0 == e@;
                assert(old(self).loaded_entries()[i] == lru0.loaded_entries()[i]);
            }
            assert forall|x: Seq<char>| #[trigger] self.ready().contains(x) <==> (x == path@ || (old(self).ready().contains(x)
                && !(evicted matches Some(e) && e@ == x))) by {
                assert(self.ready().contains(x) == self.lru.loaded_paths().contains(x));
                assert(old(self).ready().contains(x) == old(self).lru.loaded_paths().contains(x));
            }
        }
        evicted
    }

    /// Records that the thumbnail of `path` failed to load.
    pub fn load_failed(&mut self, path: String)
        requires
            old(self).wf(),
        ensures
            final(self).wf(),
            final(self).ready_count() <= MAX_READY,
            final(self).loading() == old(self).loading().remove(path@),
            final(self).failed() == old(self).failed().insert(path@),
            final(self).ready() == old(self).ready(),
            final(self).current_generation() == old(self).current_generation(),
            final(self).loads() == old(self).loads(),
    {
        drop_str(&mut self.loading, &path);
        let ghost before = views(self.failed@);
        self.failed.push(path);
        assert(views(self.failed@) =~= before.push(path@));
        assert(views(self.failed@).to_set() =~= before.to_set().insert(path@)) by {
            assert forall|y: Seq<char>| views(self.failed@).contains(y) <==> before.to_set().insert(path@).contains(y) by {
                if views(self.failed@).contains(y) {
                    let k = choose|k: int| 0 <= k < views(self.failed@).len() && #[trigger] views(self.failed@)[k] == y;
                    if k < before.len() {
                        assert(before[k] == y);
                    }
                }
                if before.contains(y) {
                    let k = choose|k: int| 0 <= k < before.len() && #[trigger] before[k] == y;
                    assert(views(self.failed@)[k] == y);
                }
                if y == path@ {
                    assert(views(self.failed@)[before.len() as int] == y);
                }
            }
        }
    }

    /// Takes in the results of thumbnail loads that arrived in a frame, in
    /// order: a loaded thumbnail becomes ready (the one used longest ago
    /// making room when `MAX_READY` are loaded), a failed one is marked
    /// failed, and each leaves the loading set. Returns the paths unloaded to
    /// make room, so that the caller drops them too.
    pub fn take_results(&mut self, results: &[(String, bool)]) -> (evicted: Vec<String>)
        requires
            old(self).wf(),
            old(self).loads() + results@.len() < u64::MAX,
        ensures
            final(self).wf(),
            final(self).ready_count() <= MAX_READY,
            forall|x: Seq<char>|
                #[trigger] final(self).loading().contains(x) <==> (old(self).loading().contains(x)
                    && forall|k: int| 0 <= k < results@.len() ==> #[trigger] results@[k].0@ != x),
            forall|k: int|
                0 <= k < results@.len() && results@[k].1 ==> #[trigger] final(self).ready().contains(results@[k].0@)
                    || views(evicted@).contains(results@[k].0@),
            forall|k: int|
                0 <= k < results@.len() && !results@[k].1 ==> #[trigger] final(self).failed().contains(results@[k].0@),
            old(self).failed().subset_of(final(self).failed()),
            final(self).current_generation() == old(self).current_generation(),
    {
        let mut evicted: Vec<String> = Vec::new();
        let mut i: usize = 0;
        while i < results.len()
            invariant
                i <= results@.len(),
                self.wf(),
                self.loads() + (results@.len() - i) < u64::MAX,
                forall|x: Seq<char>|
                    #[trigger] self.loading().contains(x) <==> (old(self).loading().contains(x)
                        && forall|k: int| 0 <= k < i ==> #[trigger] results@[k].0@ != x),
                forall|k: int|
                    0 <= k < i && results@[k].1 ==> #[trigger] self.ready().contains(results@[k].0@)
                        || views(evicted@).contains(results@[k].0@),
                forall|k: int|
                    0 <= k < i && !results@[k].1 ==> #[trigger] self.failed().contains(results@[k].0@),
                old(self).failed().subset_of(self.failed()),
                self.current_generation() == old(self).current_generation(),
            decreases results.len() - i,
        {
            let ghost before = *self;
            let ghost ev0 = views(evicted@);
            let path = results[i].0.clone();
            if results[i].1 {
                let e = self.loaded(path);
                match e {
                    Some(x) => {
                        evicted.push(x);
                        assert(views(evicted@) =~= ev0.push(x@));
                    },
                    None => {},
                }
                proof {
                    assert forall|k: int|
                        0 <= k < i + 1 && results@[k].1 implies #[trigger] self.ready().contains(results@[k].0@)
                            || views(evicted@).contains(results@[k].0@) by {
                        if k < i {
                            let y = results@[k].0@;
                            if before.ready().contains(y) && !self.ready().contains(y) {
                                assert(views(evicted@)[ev0.len() as int] == y);
                            }
                            if ev0.contains(y) {
                                let m = choose|m: int| 0 <= m < ev0.len() && ev0[m] == y;
                                assert(views(evicted@)[m] == y);
                            }
                        }
                    }
                }
            } else {
                self.load_failed(path);
            }
            proof {
                assert forall|x: Seq<char>| #[trigger] self.loading().contains(x) <==> (old(self).loading().contains(x)
                    && forall|k: int| 0 <= k < i + 1 ==> #[trigger] results@[k].0@ != x) by {
                    if !(forall|k: int| 0 <= k < i + 1 ==> #[trigger] results@[k].0@ != x) {
                        let k = choose|k: int| !(0 <= k < i + 1 ==> #[trigger] results@[k].0@ != x);
                        if k < i {
                            assert(!before.loading().contains(x));
                        }
                    }
                }
                assert forall|k: int| 0 <= k < i + 1 && !results@[k].1 implies #[trigger] self.failed().contains(results@[k].0@) by {
                    if k < i {
                        assert(before.failed().contains(results@[k].0@));
                    }
                }
            }
            i = i + 1;
        }
        proof {
            self.lemma_ready_bounded();
        }
        evicted
    }

    /// At most `MAX_READY` thumbnails are loaded at any time.
    pub proof fn lemma_ready_bounded(&self)
        requires
            self.wf(),
        ensures
            self.ready().len() == self.ready_count(),
            self.ready_count() <= MAX_READY,
    {
        self.lru.lemma_loaded_bounded();
        self.lru.loaded_paths().unique_seq_to_set();
    }
}

} // verus!

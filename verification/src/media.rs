//! Which files are media, and the library item made of a media file found in
//! the library folder.
use vstd::prelude::*;
use crate::models::{MediaItem, MediaType};
use crate::paths::{is_sep, extension, file_name, extension_chars, file_name_chars, slice_chars};
use crate::text::{lowercase, chars_of, string_of, to_lowercase};
use std::sync::Arc;

verus! {

/// The media type of a (lowercase) file extension: the video extensions
/// `mp4 mkv avi mov wmv flv webm`, the image extensions
/// `jpg jpeg png gif webp bmp tiff tif`, and no type for any other.
pub open spec fn ext_media_type(e: Seq<char>) -> Option<MediaType> {
    if e == seq!['m', 'p', '4'] || e == seq!['m', 'k', 'v'] || e == seq!['a', 'v', 'i'] || e
        == seq!['m', 'o', 'v'] || e == seq!['w', 'm', 'v'] || e == seq!['f', 'l', 'v'] || e
        == seq!['w', 'e', 'b', 'm'] {
        Some(MediaType::Video)
    } else if e == seq!['j', 'p', 'g'] || e == seq!['j', 'p', 'e', 'g'] || e == seq!['p', 'n', 'g']
        || e == seq!['g', 'i', 'f'] || e == seq!['w', 'e', 'b', 'p'] || e == seq!['b', 'm', 'p']
        || e == seq!['t', 'i', 'f', 'f'] || e == seq!['t', 'i', 'f'] {
        Some(MediaType::Image)
    } else {
        None
    }
}

/// Whether the file at `p` is a media file: it has an extension whose
/// lowercased form is a media extension.
pub open spec fn media_path(p: Seq<char>) -> bool {
    match extension(p) {
        Some(e) => ext_media_type(lowercase(e)) is Some,
        None => false,
    }
}

/// Whether `a` and `b` hold the same characters.
pub fn same_text(a: &[char], b: &[char]) -> (r: bool)
    ensures
        r == (a@ == b@),
{
    if a.len() != b.len() {
        return false;
    }
    let mut i: usize = 0;
    while i < a.len()
        invariant
            i <= a@.len(),
            a@.len() == b@.len(),
            forall|k: int| 0 <= k < i ==> a@[k] == b@[k],
        decreases a.len() - i,
    {
        if a[i] != b[i] {
            return false;
        }
        i = i + 1;
    }
    assert(a@ =~= b@);
    true
}

/// The media type of the file extension `ext`, compared as given (callers
/// lowercase it first); see [`ext_media_type`].
pub fn media_type_from_ext(ext: &str) -> (r: Option<MediaType>)
    ensures
        r == ext_media_type(ext@),
{
    let e = chars_of(ext);
    let s = e.as_slice();
    if same_text(s, &['m', 'p', '4']) || same_text(s, &['m', 'k', 'v']) || same_text(
        s,
        &['a', 'v', 'i'],
    ) || same_text(s, &['m', 'o', 'v']) || same_text(s, &['w', 'm', 'v']) || same_text(
        s,
        &['f', 'l', 'v'],
    ) || same_text(s, &['w', 'e', 'b', 'm']) {
        Some(MediaType::Video)
    } else if same_text(s, &['j', 'p', 'g']) || same_text(s, &['j', 'p', 'e', 'g'])
        || same_text(s, &['p', 'n', 'g']) || same_text(s, &['g', 'i', 'f']) || same_text(
        s,
        &['w', 'e', 'b', 'p'],
    ) || same_text(s, &['b', 'm', 'p']) || same_text(s, &['t', 'i', 'f', 'f']) || same_text(
        s,
        &['t', 'i', 'f'],
    ) {
        Some(MediaType::Image)
    } else {
        None
    }
}

/// Whether the file at `path` is a media file (see [`media_path`]).
pub fn is_media_path(path: &str) -> (r: bool)
    ensures
        r == media_path(path@),
{
    match extension_chars(chars_of(path).as_slice()) {
        Some(e) => {
            let low = to_lowercase(string_of(e.as_slice()).as_str());
            media_type_from_ext(low.as_str()).is_some()
        },
        None => false,
    }
}

/// The index of the first character at or after `i` that is not a separator.
pub open spec fn skip_seps(p: Seq<char>, i: int) -> int
    decreases p.len() - i,
{
    if 0 <= i < p.len() && is_sep(p[i]) {
        skip_seps(p, i + 1)
    } else {
        i
    }
}

/// The end of the component that starts at `i`.
pub open spec fn comp_end(p: Seq<char>, i: int) -> int
    decreases p.len() - i,
{
    if 0 <= i < p.len() && !is_sep(p[i]) {
        comp_end(p, i + 1)
    } else {
        i
    }
}

/// `skip_seps` and `comp_end` stay within `[i, len]`, and a component is not empty.
pub proof fn lemma_comp_bounds(p: Seq<char>, i: int)
    requires
        0 <= i <= p.len(),
    ensures
        i <= skip_seps(p, i) <= p.len(),
        i <= comp_end(p, i) <= p.len(),
        skip_seps(p, i) < p.len() ==> !is_sep(p[skip_seps(p, i)]),
        i < p.len() && !is_sep(p[i]) ==> comp_end(p, i) > i,
    decreases p.len() - i,
{
    if i < p.len() {
        lemma_comp_bounds(p, i + 1);
    }
}

/// The components of `p[i..]`: its maximal runs of characters without
/// separator, leaving out `.` (the current folder), in order.
pub open spec fn components_from(p: Seq<char>, i: int) -> Seq<Seq<char>>
    decreases p.len() - i,
{
    if i < 0 || i > p.len() {
        Seq::empty()
    } else {
        let a = skip_seps(p, i);
        if a >= p.len() {
            Seq::empty()
        } else {
            proof {
                lemma_comp_bounds(p, i);
                lemma_comp_bounds(p, a);
            }
            let e = comp_end(p, a);
            let c = p.subrange(a, e);
            if c == seq!['.'] {
                components_from(p, e)
            } else {
                seq![c] + components_from(p, e)
            }
        }
    }
}

/// The components of the path `p`.
pub open spec fn components(p: Seq<char>) -> Seq<Seq<char>> {
    components_from(p, 0)
}

/// The components of `p` after those of `root`, if `root`'s components begin
/// `p`'s (`Path::strip_prefix`).
pub open spec fn relative_parts(root: Seq<char>, p: Seq<char>) -> Option<Seq<Seq<char>>> {
    let r = components(root);
    let c = components(p);
    if r.len() <= c.len() && c.take(r.len() as int) == r {
        Some(c.skip(r.len() as int))
    } else {
        None
    }
}

/// What a media file at `p` in the library at `root` is listed as: its type,
/// its copyright and artist (the first two folders below the library) and its
/// file name. A file that is not media, not in the library, or not at least
/// two folders deep is not listed.
pub open spec fn listed_as(root: Seq<char>, p: Seq<char>) -> Option<(MediaType, Seq<char>, Seq<char>, Seq<char>)> {
    match extension(p) {
        None => None,
        Some(e) => match ext_media_type(lowercase(e)) {
            None => None,
            Some(t) => match relative_parts(root, p) {
                None => None,
                Some(parts) => if parts.len() < 3 {
                    None
                } else {
                    match file_name(p) {
                        None => None,
                        Some(n) => Some((t, parts[0], parts[1], n)),
                    }
                },
            },
        },
    }
}

/// The components of a path, computed.
pub fn split_components(p: &[char]) -> (r: Vec<Vec<char>>)
    ensures
        r@.map_values(|v: Vec<char>| v@) == components(p@),
{
    let ghost pv = p@;
    let mut out: Vec<Vec<char>> = Vec::new();
    let mut i: usize = 0;
    while i < p.len()
        invariant
            pv == p@,
            i <= p@.len(),
            components(pv) =~= out@.map_values(|v: Vec<char>| v@) + components_from(pv, i as int),
        decreases p.len() - i,
    {
        let mut a: usize = i;
        while a < p.len() && (p[a] == '/' || p[a] == '\\')
            invariant
                i <= a <= p@.len(),
                pv == p@,
                skip_seps(pv, a as int) == skip_seps(pv, i as int),
            decreases p.len() - a,
        {
            a = a + 1;
        }
        if a >= p.len() {
            assert(components_from(pv, i as int) =~= Seq::<Seq<char>>::empty());
            assert(components_from(pv, a as int) =~= Seq::<Seq<char>>::empty());
            i = a;
        } else {
            let mut e: usize = a;
            while e < p.len() && !(p[e] == '/' || p[e] == '\\')
                invariant
                    a <= e <= p@.len(),
                    pv == p@,
                    comp_end(pv, e as int) == comp_end(pv, a as int),
                decreases p.len() - e,
            {
                e = e + 1;
            }
            let c = slice_chars(p, a, e);
            let ghost before = out@.map_values(|v: Vec<char>| v@);
            let dot = c.len() == 1 && c[0] == '.';
            proof {
                lemma_comp_bounds(pv, i as int);
                assert(dot == (c@ == seq!['.'])) by {
                    if c@ == seq!['.'] {
                        assert(c@.len() == 1 && c@[0] == '.');
                    }
                    if dot {
                        assert(c@ =~= seq!['.']);
                    }
                }
            }
            if !dot {
                out.push(c);
                assert(out@.map_values(|v: Vec<char>| v@) =~= before.push(pv.subrange(a as int, e as int)));
            }
            i = e;
        }
    }
    assert(components_from(pv, i as int) =~= Seq::<Seq<char>>::empty());
    out
}

/// Whether the components `r` begin the components `c`.
fn starts_with_parts(c: &Vec<Vec<char>>, r: &Vec<Vec<char>>) -> (b: bool)
    ensures
        b == (r@.len() <= c@.len() && c@.map_values(|v: Vec<char>| v@).take(r@.len() as int)
            == r@.map_values(|v: Vec<char>| v@)),
{
    let ghost cv = c@.map_values(|v: Vec<char>| v@);
    let ghost rv = r@.map_values(|v: Vec<char>| v@);
    if r.len() > c.len() {
        return false;
    }
    let mut i: usize = 0;
    while i < r.len()
        invariant
            i <= r@.len() <= c@.len(),
            cv == c@.map_values(|v: Vec<char>| v@),
            rv == r@.map_values(|v: Vec<char>| v@),
            forall|k: int| 0 <= k < i ==> cv[k] == rv[k],
        decreases r.len() - i,
    {
        if !same_text(c[i].as_slice(), r[i].as_slice()) {
            assert(cv.take(r@.len() as int)[i as int] != rv[i as int]);
            return false;
        }
        i = i + 1;
    }
    assert(cv.take(r@.len() as int) =~= rv);
    true
}

/// The library item for the media file at `path`, found by a scan of the
/// library at `root` and last modified at `modified` (seconds since the
/// epoch); see [`listed_as`]. The item starts without characters or tags.
/// Whether the file exists and when it changed is for the caller to find out.
pub fn build_media_item(root: &str, path: &str, modified: i64) -> (r: Option<Arc<MediaItem>>)
    ensures
        match r {
            Some(it) => {
                &&& listed_as(root@, path@) == Some((it.media_type, it.copyright@, it.artist@, it.name@))
                &&& it.path@ == path@
                &&& it.characters@.len() == 0
                &&& it.tags@.len() == 0
                &&& it.modified == modified
            },
            None => listed_as(root@, path@) is None,
        },
{
    let pc = chars_of(path);
    let e = match extension_chars(pc.as_slice()) {
        Some(e) => e,
        None => return None,
    };
    let low = to_lowercase(string_of(e.as_slice()).as_str());
    let t = match media_type_from_ext(low.as_str()) {
        Some(t) => t,
        None => return None,
    };
    let rc = split_components(chars_of(root).as_slice());
    let c = split_components(pc.as_slice());
    if !starts_with_parts(&c, &rc) {
        return None;
    }
    let ghost parts = components(path@).skip(rc@.len() as int);
    if c.len() - rc.len() < 3 {
        return None;
    }
    let name = match file_name_chars(pc.as_slice()) {
        Some(n) => n,
        None => return None,
    };
    let k = rc.len();
    assert(c@[k as int]@ == parts[0]);
    assert(c@[k + 1]@ == parts[1]);
    let item = MediaItem {
        path: string_of(pc.as_slice()),
        name: string_of(name.as_slice()),
        media_type: t,
        copyright: string_of(c[k].as_slice()),
        artist: string_of(c[k + 1].as_slice()),
        characters: Vec::new(),
        tags: Vec::new(),
        modified,
    };
    Some(Arc::new(item))
}

} // verus!

//! File paths as the library reads them: a path is text whose components are
//! separated by `/` or `\`, as on Windows. As `std::path::Path` does, trailing
//! separators and trailing `.` components are not read. The file name is the
//! text after the last separator, the parent the text before it (with its own
//! trailing separators and `.` components dropped; a root keeps its separator);
//! a file name splits at its last dot into stem and extension, unless that dot
//! is its first character.
use vstd::prelude::*;


verus! {

/// Whether `c` separates path components.
pub open spec fn is_sep(c: char) -> bool {
    c == '/' || c == '\\'
}

/// The index just after the last separator in `p[..j]`, or 0 if there is none.
pub open spec fn name_start_before(p: Seq<char>, j: int) -> int
    decreases j,
{
    if 0 < j && j <= p.len() && !is_sep(p[j - 1]) {
        name_start_before(p, j - 1)
    } else {
        j
    }
}

/// Whether the separator at `k - 1` of `p` ends a root: it is the first
/// character, or follows a drive `X:`.
pub open spec fn ends_root(p: Seq<char>, k: int) -> bool {
    k == 1 || (k == 3 && p[1] == ':' && (('a' <= p[0] && p[0] <= 'z') || ('A' <= p[0] && p[0] <= 'Z')))
}

/// The end of `p[..j]` once its trailing separators (but a root's) and its
/// trailing `.` components are dropped.
pub open spec fn trim_end_before(p: Seq<char>, j: int) -> int
    decreases j,
{
    if j <= 1 || j > p.len() {
        j
    } else if is_sep(p[j - 1]) && !ends_root(p, j) {
        trim_end_before(p, j - 1)
    } else if p[j - 1] == '.' && is_sep(p[j - 2]) {
        trim_end_before(p, j - 1)
    } else {
        j
    }
}

/// Where the read part of `p` ends: trailing separators and `.` components
/// are not read.
pub open spec fn path_end(p: Seq<char>) -> int {
    trim_end_before(p, p.len() as int)
}

/// The index at which the last component of `p` begins.
pub open spec fn name_start(p: Seq<char>) -> int {
    name_start_before(p, path_end(p))
}

/// The last component of `p`: the read text after its last separator.
pub open spec fn last_component(p: Seq<char>) -> Seq<char> {
    p.subrange(name_start(p), path_end(p))
}

/// The file name of `p`: its last component, unless that is empty, `.` or `..`.
pub open spec fn file_name(p: Seq<char>) -> Option<Seq<char>> {
    let n = last_component(p);
    if n.len() == 0 || n == seq!['.'] || n == seq!['.', '.'] {
        None
    } else {
        Some(n)
    }
}

/// The text of `p` before its last separator (empty if it has none), with
/// its trailing separators and `.` components dropped; a root keeps its
/// separator (`/x` has the parent `/`, `C:\x` has `C:\`, `a//b` has `a`).
pub open spec fn parent_text(p: Seq<char>) -> Seq<char> {
    let k = name_start(p);
    if k == 0 {
        Seq::empty()
    } else if ends_root(p, k) {
        p.take(k)
    } else {
        p.take(trim_end_before(p, k - 1))
    }
}

/// The index of the last dot in `n[..j]`, or -1 if there is none.
pub open spec fn last_dot_before(n: Seq<char>, j: int) -> int
    decreases j,
{
    if j <= 0 || j > n.len() {
        -1
    } else if n[j - 1] == '.' {
        j - 1
    } else {
        last_dot_before(n, j - 1)
    }
}

/// The index of the last dot of a file name, or -1 if it has none.
pub open spec fn last_dot(n: Seq<char>) -> int {
    last_dot_before(n, n.len() as int)
}

/// The stem of a file name: the part before its last dot, or the whole name
/// when it has no dot or its only dot is the first character.
pub open spec fn name_stem(n: Seq<char>) -> Seq<char> {
    let d = last_dot(n);
    if d <= 0 {
        n
    } else {
        n.take(d)
    }
}

/// The extension of a file name: the part after its last dot, if that dot is
/// not its first character.
pub open spec fn name_ext(n: Seq<char>) -> Option<Seq<char>> {
    let d = last_dot(n);
    if d <= 0 {
        None
    } else {
        Some(n.skip(d + 1))
    }
}

/// The stem of the file name of `p`, as `Path::file_stem` gives it.
pub open spec fn file_stem(p: Seq<char>) -> Option<Seq<char>> {
    match file_name(p) {
        Some(n) => Some(name_stem(n)),
        None => None,
    }
}

/// The extension of the file name of `p`, as `Path::extension` gives it.
pub open spec fn extension(p: Seq<char>) -> Option<Seq<char>> {
    match file_name(p) {
        Some(n) => name_ext(n),
        None => None,
    }
}

/// The characters `p[a..b]` as a new vector.
pub fn slice_chars(p: &[char], a: usize, b: usize) -> (r: Vec<char>)
    requires
        a <= b <= p@.len(),
    ensures
        r@ == p@.subrange(a as int, b as int),
{
    let mut r: Vec<char> = Vec::new();
    let mut k: usize = a;
    while k < b
        invariant
            a <= k <= b <= p@.len(),
            r@ == p@.subrange(a as int, k as int),
        decreases b - k,
    {
        r.push(p[k]);
        assert(p@.subrange(a as int, k as int).push(p@[k as int]) =~= p@.subrange(
            a as int,
            k + 1,
        ));
        k = k + 1;
    }
    r
}

/// Whether the separator at `k - 1` of `p` ends a root (see [`ends_root`]).
fn ends_root_at(p: &[char], k: usize) -> (r: bool)
    requires
        1 <= k <= p@.len(),
    ensures
        r == ends_root(p@, k as int),
{
    k == 1 || (k == 3 && p[1] == ':' && (('a' <= p[0] && p[0] <= 'z') || ('A' <= p[0] && p[0] <= 'Z')))
}

/// The end of `p[..j]` once trailing separators and `.` components are dropped.
pub fn trim_end_at(p: &[char], j: usize) -> (r: usize)
    requires
        j <= p@.len(),
    ensures
        r == trim_end_before(p@, j as int),
        r <= j,
{
    let mut i: usize = j;
    while i > 1 && ((is_sep_char(p[i - 1]) && !ends_root_at(p, i)) || (p[i - 1] == '.' && is_sep_char(p[i - 2])))
        invariant
            i <= j <= p@.len(),
            trim_end_before(p@, i as int) == trim_end_before(p@, j as int),
        decreases i,
    {
        i = i - 1;
    }
    i
}

/// Whether `c` separates path components.
fn is_sep_char(c: char) -> (r: bool)
    ensures
        r == is_sep(c),
{
    c == '/' || c == '\\'
}

/// Where the read part of `p` ends (see [`path_end`]).
pub fn find_path_end(p: &[char]) -> (e: usize)
    ensures
        e == path_end(p@),
        e <= p@.len(),
{
    trim_end_at(p, p.len())
}

/// The index at which the last component of `p` begins.
pub fn find_name_start(p: &[char]) -> (k: usize)
    ensures
        k == name_start(p@),
        k <= path_end(p@) <= p@.len(),
{
    let e = find_path_end(p);
    let mut j: usize = e;
    while j > 0 && !is_sep_char(p[j - 1])
        invariant
            j <= e <= p@.len(),
            e == path_end(p@),
            name_start_before(p@, j as int) == name_start(p@),
        decreases j,
    {
        j = j - 1;
    }
    j
}

/// The file name of the path `p`.
pub fn file_name_chars(p: &[char]) -> (r: Option<Vec<char>>)
    ensures
        match r {
            Some(v) => file_name(p@) == Some(v@),
            None => file_name(p@) is None,
        },
{
    let k = find_name_start(p);
    let e = find_path_end(p);
    let n = slice_chars(p, k, e);
    assert(n@ =~= last_component(p@));
    if n.len() == 0 {
        None
    } else if n.len() == 1 && n[0] == '.' {
        assert(n@ =~= seq!['.']);
        None
    } else if n.len() == 2 && n[0] == '.' && n[1] == '.' {
        assert(n@ =~= seq!['.', '.']);
        None
    } else {
        assert(n@ != seq!['.']) by {
            if n@ == seq!['.'] {
                assert(n@.len() == 1 && n@[0] == '.');
            }
        }
        assert(n@ != seq!['.', '.']) by {
            if n@ == seq!['.', '.'] {
                assert(n@.len() == 2 && n@[0] == '.' && n@[1] == '.');
            }
        }
        Some(n)
    }
}

/// The index of the last dot of the file name `n`, if it has one.
pub fn find_last_dot(n: &[char]) -> (d: Option<usize>)
    ensures
        match d {
            Some(i) => i == last_dot(n@) && i < n@.len(),
            None => last_dot(n@) == -1,
        },
{
    let mut j: usize = n.len();
    while j > 0
        invariant
            j <= n@.len(),
            last_dot_before(n@, j as int) == last_dot(n@),
        decreases j,
    {
        if n[j - 1] == '.' {
            return Some(j - 1);
        }
        j = j - 1;
    }
    None
}

/// The stem of the file name `n`.
pub fn name_stem_chars(n: &[char]) -> (r: Vec<char>)
    ensures
        r@ == name_stem(n@),
{
    match find_last_dot(n) {
        Some(d) if d > 0 => slice_chars(n, 0, d),
        _ => slice_chars(n, 0, n.len()),
    }
}

/// The extension of the file name `n`.
pub fn name_ext_chars(n: &[char]) -> (r: Option<Vec<char>>)
    ensures
        match r {
            Some(v) => name_ext(n@) == Some(v@),
            None => name_ext(n@) is None,
        },
{
    match find_last_dot(n) {
        Some(d) if d > 0 => {
            let len = n.len();
            assert(d < len);
            let v = slice_chars(n, d + 1, len);
            assert(v@ =~= n@.skip(d + 1));
            Some(v)
        },
        _ => None,
    }
}

/// The stem of the file name of `p` (`Path::file_stem`).
pub fn file_stem_chars(p: &[char]) -> (r: Option<Vec<char>>)
    ensures
        match r {
            Some(v) => file_stem(p@) == Some(v@),
            None => file_stem(p@) is None,
        },
{
    match file_name_chars(p) {
        Some(n) => Some(name_stem_chars(n.as_slice())),
        None => None,
    }
}

/// The extension of the file name of `p` (`Path::extension`).
pub fn extension_chars(p: &[char]) -> (r: Option<Vec<char>>)
    ensures
        match r {
            Some(v) => extension(p@) == Some(v@),
            None => extension(p@) is None,
        },
{
    match file_name_chars(p) {
        Some(n) => name_ext_chars(n.as_slice()),
        None => None,
    }
}

/// The text of `p` before its last separator.
pub fn parent_chars(p: &[char]) -> (r: Vec<char>)
    ensures
        r@ == parent_text(p@),
{
    let k = find_name_start(p);
    if k == 0 {
        Vec::new()
    } else if ends_root_at(p, k) {
        slice_chars(p, 0, k)
    } else {
        let t = trim_end_at(p, k - 1);
        slice_chars(p, 0, t)
    }
}

} // verus!

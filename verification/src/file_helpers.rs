//! File naming: building the name of a distributed file, numbering files of a
//! group (`name - 1`, `name - 2`, ...), and choosing a name that clashes with
//! nothing in the destination folder.
use vstd::prelude::*;
use crate::models::{MediaItem, MediaType, ResolvedName, share};
use crate::paths::{file_stem, extension, parent_text, file_stem_chars, extension_chars, parent_chars, slice_chars};
use crate::text::{
    trimmed, lowercase, join_seq, views, decimal, digits_value, all_digits, is_digit, occurs_at,
    chars_of, string_of, trim_chars, to_lowercase, push_str, join_strings, decimal_chars,
    is_digit_char, digit_of, push_char, lemma_decimal, decimal_string, ascii_lower, ascii_lowered, is_ascii_text,
};
use std::sync::Arc;

verus! {

/// Whether `c` may not stand in a file name on Windows.
pub open spec fn is_forbidden(c: char) -> bool {
    c == '/' || c == '\\' || c == ':' || c == '*' || c == '?' || c == '"' || c == '<' || c
        == '>' || c == '|'
}

/// `c`, or `_` in place of a character that may not stand in a file name.
pub open spec fn safe_char(c: char) -> char {
    if is_forbidden(c) {
        '_'
    } else {
        c
    }
}

/// `s` with every forbidden character replaced by `_`, then trimmed.
pub open spec fn sanitized(s: Seq<char>) -> Seq<char> {
    trimmed(s.map_values(|c: char| safe_char(c)))
}

/// The file name made of a stem and an extension (no dot when the extension is empty).
pub open spec fn file_name_of(stem: Seq<char>, ext: Seq<char>) -> Seq<char> {
    if ext.len() == 0 {
        stem
    } else {
        stem + seq!['.'] + ext
    }
}

/// The separator between a base name and its number: `" - "`.
pub open spec fn dash() -> Seq<char> {
    seq![' ', '-', ' ']
}

/// The numbered stem `<base> - <n>`.
pub open spec fn numbered(base: Seq<char>, n: nat) -> Seq<char> {
    base + dash() + decimal(n)
}

/// The stem of the file at `p`, or the empty text if it has none.
pub open spec fn stem_or_empty(p: Seq<char>) -> Seq<char> {
    match file_stem(p) {
        Some(s) => s,
        None => Seq::empty(),
    }
}

/// The characters part of a built file name: the characters joined with the separator.
pub open spec fn char_part(characters: Seq<Seq<char>>, sep: Seq<char>) -> Seq<char> {
    join_seq(characters, sep)
}

/// The artist part of a built file name: `[artist]`, or nothing for no artist.
pub open spec fn artist_part(artist: Seq<char>) -> Seq<char> {
    if artist.len() == 0 {
        Seq::empty()
    } else {
        seq!['['] + artist + seq![']']
    }
}

/// The stem that a distributed file is given.
///
/// An image is named `<characters> [<artist>]`; a video
/// `<characters> - <title> [<artist>]`, where the title is the sanitized video
/// title or else the source file's stem. Absent parts are left out together
/// with their separators; an image without characters keeps its source stem.
pub open spec fn built_stem(
    media_type: MediaType,
    characters: Seq<Seq<char>>,
    artist: Seq<char>,
    video_title: Seq<char>,
    src_path: Seq<char>,
    char_sep: Seq<char>,
) -> Seq<char> {
    let cp = char_part(characters, char_sep);
    let ap = artist_part(artist);
    match media_type {
        MediaType::Image => {
            if cp.len() == 0 {
                stem_or_empty(src_path)
            } else if ap.len() == 0 {
                cp
            } else {
                cp + seq![' '] + ap
            }
        },
        MediaType::Video => {
            let title = if video_title.len() == 0 {
                stem_or_empty(src_path)
            } else {
                sanitized(video_title)
            };
            let middle = if cp.len() == 0 {
                title
            } else {
                cp + dash() + title
            };
            if ap.len() == 0 {
                middle
            } else {
                middle + seq![' '] + ap
            }
        },
    }
}

/// What a distributed file's stem is made of. A video is named
/// `<characters> - <title>`, or `<title>` without characters, where the title
/// is the sanitized typed title, or the source file's stem when none is typed;
/// an image is named `<characters>`, or keeps its source stem without
/// characters. Either is followed by ` [<artist>]` when an artist is given,
/// except an image without characters.
pub proof fn lemma_built_stem_parts(
    media_type: MediaType,
    characters: Seq<Seq<char>>,
    artist: Seq<char>,
    video_title: Seq<char>,
    src_path: Seq<char>,
    char_sep: Seq<char>,
)
    ensures
        ({
            let chars = join_seq(characters, char_sep);
            let tail = if artist.len() == 0 {
                Seq::<char>::empty()
            } else {
                seq![' ', '['] + artist + seq![']']
            };
            let title = if video_title.len() == 0 {
                stem_or_empty(src_path)
            } else {
                sanitized(video_title)
            };
            built_stem(media_type, characters, artist, video_title, src_path, char_sep) == match media_type {
                MediaType::Video => if chars.len() == 0 {
                    title + tail
                } else {
                    chars + seq![' ', '-', ' '] + title + tail
                },
                MediaType::Image => if chars.len() == 0 {
                    stem_or_empty(src_path)
                } else {
                    chars + tail
                },
            }
        }),
{
    let chars = join_seq(characters, char_sep);
    let title = if video_title.len() == 0 {
        stem_or_empty(src_path)
    } else {
        sanitized(video_title)
    };
    let dash_title = chars + seq![' ', '-', ' '] + title;
    if artist.len() > 0 {
        let tail = seq![' ', '['] + artist + seq![']'];
        assert(seq![' '] + (seq!['['] + artist + seq![']']) =~= tail);
        assert(chars + seq![' '] + (seq!['['] + artist + seq![']']) =~= chars + tail);
        assert(title + seq![' '] + (seq!['['] + artist + seq![']']) =~= title + tail);
        assert(dash_title + seq![' '] + (seq!['['] + artist + seq![']']) =~= dash_title + tail);
    } else {
        assert(title + Seq::<char>::empty() =~= title);
        assert(chars + Seq::<char>::empty() =~= chars);
        assert(dash_title + Seq::<char>::empty() =~= dash_title);
    }
}

/// The start of the last `" - "` in `s` at or before index `i`, or -1.
pub open spec fn last_dash_from(s: Seq<char>, i: int) -> int
    decreases i + 1,
{
    if i < 0 {
        -1
    } else if occurs_at(s, dash(), i) {
        i
    } else {
        last_dash_from(s, i - 1)
    }
}

/// The start of the last `" - "` in `s` (`str::rfind`), or -1.
pub open spec fn last_dash(s: Seq<char>) -> int {
    last_dash_from(s, s.len() - 3)
}

/// The digits of an unsigned number as `u32::from_str` reads it: one optional `+`, then digits.
pub open spec fn unsigned_digits(t: Seq<char>) -> Seq<char> {
    if t.len() > 0 && t[0] == '+' {
        t.drop_first()
    } else {
        t
    }
}

/// What `u32::from_str` gives for `t`: its value, if `t` is a `+`-optional
/// non-empty run of digits whose value fits in a `u32`.
pub open spec fn parse_u32(t: Seq<char>) -> Option<u32> {
    let d = unsigned_digits(t);
    if d.len() > 0 && all_digits(d) && digits_value(d) <= u32::MAX {
        Some(digits_value(d) as u32)
    } else {
        None
    }
}

/// The base and number of a numbered stem `<base> - <n>`, read at the last
/// `" - "` of the stem; `n` must be a positive `u32`.
pub open spec fn suffix_number(s: Seq<char>) -> Option<(Seq<char>, u32)> {
    let p = last_dash(s);
    if p < 0 {
        None
    } else {
        match parse_u32(s.skip(p + 3)) {
            Some(n) => if n == 0 {
                None
            } else {
                Some((s.take(p), n))
            },
            None => None,
        }
    }
}

/// Whether the key of the file `f` is its stem with ASCII capitals made small
/// when that stem is ASCII text (what `str::to_lowercase` gives there).
pub open spec fn ascii_keyed(f: Seq<char>) -> bool {
    match file_stem(f) {
        Some(st) => is_ascii_text(st) ==> lowercase(st) == ascii_lowered(st),
        None => true,
    }
}

/// The key under which a folder holds a file: the lowercased stem of its name.
pub open spec fn stem_key(f: Seq<char>) -> Option<Seq<char>> {
    match file_stem(f) {
        Some(s) => Some(lowercase(s)),
        None => None,
    }
}

/// Whether a file of `files` has the key `k`.
pub open spec fn key_taken(files: Seq<Seq<char>>, k: Seq<char>) -> bool {
    exists|i: int| 0 <= i < files.len() && #[trigger] stem_key(files[i]) == Some(k)
}

/// Whether `i` is the first index of `files` whose key is `k`.
pub open spec fn first_with_key(files: Seq<Seq<char>>, k: Seq<char>, i: int) -> bool {
    &&& 0 <= i < files.len()
    &&& stem_key(files[i]) == Some(k)
    &&& forall|j: int| 0 <= j < i ==> #[trigger] stem_key(files[j]) != Some(k)
}

/// Whether the numbered stem `<stem> - <n>` is taken in the folder.
pub open spec fn suffix_taken(files: Seq<Seq<char>>, stem: Seq<char>, n: nat) -> bool {
    key_taken(files, lowercase(numbered(stem, n)))
}

/// Whether a new file named after `stem` must be numbered: the stem or its
/// `- 1` form is taken.
pub open spec fn needs_number(files: Seq<Seq<char>>, stem: Seq<char>) -> bool {
    key_taken(files, lowercase(stem)) || suffix_taken(files, stem, 1)
}

/// Whether the file holding `stem` is to be renamed `<stem> - 1`: the stem is
/// taken and its `- 1` form is not.
pub open spec fn renames_existing(files: Seq<Seq<char>>, stem: Seq<char>) -> bool {
    key_taken(files, lowercase(stem)) && !suffix_taken(files, stem, 1)
}

/// Whether some number from 2 to `u32::MAX` is free for `stem`.
pub open spec fn has_free_number(files: Seq<Seq<char>>, stem: Seq<char>) -> bool {
    exists|n: nat| 2 <= n <= u32::MAX && !#[trigger] suffix_taken(files, stem, n)
}

/// Whether `n` is the least number from 2 on that is free for `stem`.
pub open spec fn least_free_number(files: Seq<Seq<char>>, stem: Seq<char>, n: nat) -> bool {
    &&& 2 <= n <= u32::MAX
    &&& !suffix_taken(files, stem, n)
    &&& forall|m: nat| 2 <= m < n ==> #[trigger] suffix_taken(files, stem, m)
}

/// The extension of a file name, or the empty text.
pub open spec fn ext_or_empty(f: Seq<char>) -> Seq<char> {
    match extension(f) {
        Some(e) => e,
        None => Seq::empty(),
    }
}

/// Whether `r` is how a new file with `stem` and `ext` is named in a folder
/// holding the files `files`.
pub open spec fn resolves(files: Seq<Seq<char>>, stem: Seq<char>, ext: Seq<char>, r: ResolvedName) -> bool {
    match r {
        ResolvedName::Free(name) => {
            &&& !needs_number(files, stem)
            &&& name@ == file_name_of(stem, ext)
        },
        ResolvedName::RenameExisting { existing_old, existing_new, new_file } => {
            &&& renames_existing(files, stem)
            &&& exists|i: int|
                first_with_key(files, lowercase(stem), i) && #[trigger] files[i] == existing_old@
            &&& existing_new@ == file_name_of(
                numbered(stem, 1),
                lowercase(ext_or_empty(existing_old@)),
            )
            &&& exists|n: nat|
                least_free_number(files, stem, n) && new_file@ == #[trigger] file_name_of(
                    numbered(stem, n),
                    ext,
                )
        },
        ResolvedName::NextSuffix(name) => {
            &&& needs_number(files, stem)
            &&& !renames_existing(files, stem)
            &&& exists|n: nat|
                least_free_number(files, stem, n) && name@ == #[trigger] file_name_of(
                    numbered(stem, n),
                    ext,
                )
        },
    }
}

/// The base of a stem: the part before its number, or the whole stem if it has none.
pub open spec fn base_of(s: Seq<char>) -> Seq<char> {
    match suffix_number(s) {
        Some((b, _)) => b,
        None => s,
    }
}

/// The lowercased extension of a path, or the empty text.
pub open spec fn lower_ext(p: Seq<char>) -> Seq<char> {
    match extension(p) {
        Some(e) => lowercase(e),
        None => Seq::empty(),
    }
}

/// The group of a file: its folder, its lowercased extension and the lowercased
/// base of its stem; files without a stem belong to no group.
pub open spec fn group_key(p: Seq<char>) -> Option<(Seq<char>, Seq<char>, Seq<char>)> {
    match file_stem(p) {
        Some(s) => Some((parent_text(p), lower_ext(p), lowercase(base_of(s)))),
        None => None,
    }
}

/// Whether the file at `p` is in the group of the file at `item`.
pub open spec fn same_group(item: Seq<char>, p: Seq<char>) -> bool {
    group_key(item) is Some && group_key(p) == group_key(item)
}

/// The number by which the files of a group are ordered: the number of the
/// stem, or 0 for the unnumbered file.
pub open spec fn order_key(p: Seq<char>) -> u32 {
    match suffix_number(stem_or_empty(p)) {
        Some((_, n)) => n,
        None => 0,
    }
}

/// The items of `all` that are in the group of the file at `item`, in their order.
pub open spec fn group_members(item: Seq<char>, all: Seq<Arc<MediaItem>>) -> Seq<Arc<MediaItem>> {
    all.filter(|a: Arc<MediaItem>| same_group(item, a.path@))
}

/// The items of `s` whose order number is `k`, in their order.
pub open spec fn with_key(s: Seq<Arc<MediaItem>>, k: u32) -> Seq<Arc<MediaItem>> {
    s.filter(|a: Arc<MediaItem>| order_key(a.path@) == k)
}

/// Whether `r` holds the items of `s` ordered by their number, items with the
/// same number keeping their order (a stable sort).
pub open spec fn stably_sorted(r: Seq<Arc<MediaItem>>, s: Seq<Arc<MediaItem>>) -> bool {
    &&& r.len() == s.len()
    &&& forall|i: int, j: int|
        0 <= i < j < r.len() ==> order_key(r[i].path@) <= order_key(r[j].path@)
    &&& forall|k: u32| #[trigger] with_key(r, k) == with_key(s, k)
}

/// No `" - "` starts inside the `" - <digits>"` tail of a numbered stem.
proof fn lemma_last_dash_numbered(base: Seq<char>, n: nat, i: int)
    requires
        base.len() <= i <= numbered(base, n).len() - 3,
    ensures
        last_dash_from(numbered(base, n), i) == base.len(),
    decreases i,
{
    let s = numbered(base, n);
    let b = base.len() as int;
    lemma_decimal(n);
    let dec = decimal(n);
    assert(s.len() == b + 3 + dec.len());
    if i == b {
        assert(s.subrange(b, b + 3) =~= dash());
    } else {
        assert(!occurs_at(s, dash(), i)) by {
            if occurs_at(s, dash(), i) {
                let w = s.subrange(i, i + 3);
                assert(w[0] == ' ' && w[1] == '-');
                if i == b + 1 {
                    assert(w[0] == s[b + 1]);
                    assert(s[b + 1] == '-');
                } else if i == b + 2 {
                    assert(w[1] == s[b + 3]);
                    assert(s[b + 3] == dec[0]);
                    assert(is_digit(dec[0]));
                } else {
                    assert(w[0] == s[i]);
                    assert(s[i] == dec[i - b - 3]);
                    assert(is_digit(dec[i - b - 3]));
                }
            }
        }
        lemma_last_dash_numbered(base, n, i - 1);
    }
}

/// Reading a numbered stem gives back its base and number: `parse_suffix_number`
/// undoes the `<base> - <n>` numbering for every positive `u32` number.
pub proof fn lemma_suffix_number_of_numbered(base: Seq<char>, n: u32)
    requires
        n >= 1,
    ensures
        suffix_number(numbered(base, n as nat)) == Some((base, n)),
{
    let s = numbered(base, n as nat);
    lemma_decimal(n as nat);
    lemma_last_dash_numbered(base, n as nat, s.len() - 3);
    assert(last_dash(s) == base.len());
    assert(s.skip(base.len() as int + 3) =~= decimal(n as nat));
    assert(s.take(base.len() as int) =~= base);
    let dec = decimal(n as nat);
    assert(is_digit(dec[0]));
    assert(unsigned_digits(dec) == dec);
}

/// `s` with every character that may not stand in a file name replaced by `_`,
/// and without leading and trailing white space.
pub fn sanitize_filename(s: &str) -> (r: String)
    ensures
        r@ == sanitized(s@),
        forall|i: int| 0 <= i < r@.len() ==> !is_forbidden(#[trigger] r@[i]),
{
    let v = chars_of(s);
    let mut m: Vec<char> = Vec::new();
    let mut i: usize = 0;
    while i < v.len()
        invariant
            i <= v@.len(),
            v@ == s@,
            m@ == s@.take(i as int).map_values(|c: char| safe_char(c)),
        decreases v.len() - i,
    {
        let c = v[i];
        let d = if c == '/' || c == '\\' || c == ':' || c == '*' || c == '?' || c == '"' || c
            == '<' || c == '>' || c == '|' {
            '_'
        } else {
            c
        };
        m.push(d);
        assert(s@.take(i + 1).map_values(|c: char| safe_char(c)) =~= s@.take(i as int).map_values(
            |c: char| safe_char(c),
        ).push(d));
        i = i + 1;
    }
    assert(s@.take(v@.len() as int) =~= s@);
    let t = trim_chars(m.as_slice());
    proof {
        let mapped = s@.map_values(|c: char| safe_char(c));
        assert forall|i: int| 0 <= i < t@.len() implies !is_forbidden(#[trigger] t@[i]) by {
            let a = crate::text::skip_white(mapped, 0);
            crate::text::lemma_trim_bounds(mapped);
            assert(t@[i] == mapped[a + i]);
        }
    }
    string_of(t.as_slice())
}

/// The file name made of `stem` and `ext`: `stem.ext`, or `stem` alone when `ext` is empty.
pub fn make_filename(stem: &str, ext: &str) -> (r: String)
    ensures
        r@ == file_name_of(stem@, ext@),
{
    let mut r = string_of(chars_of(stem).as_slice());
    let e = chars_of(ext);
    if e.len() == 0 {
        r
    } else {
        push_char(&mut r, '.');
        push_str(&mut r, ext);
        r
    }
}

/// The stem that a file distributed into the library is given, built from its
/// characters, artist and (for a video) title; see [`built_stem`].
pub fn build_filename_stem(
    media_type: &MediaType,
    characters: &[String],
    artist: &str,
    video_title: &str,
    src_path: &str,
    char_sep: &str,
) -> (r: String)
    ensures
        r@ == built_stem(*media_type, views(characters@), artist@, video_title@, src_path@, char_sep@),
{
    let cp = join_strings(characters, char_sep);
    let cp_len = chars_of(cp.as_str()).len();
    let artist_len = chars_of(artist).len();
    let mut ap = String::new();
    if artist_len > 0 {
        push_char(&mut ap, '[');
        push_str(&mut ap, artist);
        push_char(&mut ap, ']');
    }
    assert(ap@ =~= artist_part(artist@));
    let ap_len = chars_of(ap.as_str()).len();
    let src_stem = match file_stem_chars(chars_of(src_path).as_slice()) {
        Some(s) => string_of(s.as_slice()),
        None => String::new(),
    };
    match media_type {
        MediaType::Image => {
            if cp_len == 0 {
                src_stem
            } else if ap_len == 0 {
                cp
            } else {
                let mut r = cp;
                push_char(&mut r, ' ');
                push_str(&mut r, ap.as_str());
                r
            }
        },
        MediaType::Video => {
            let title = if chars_of(video_title).len() == 0 {
                src_stem
            } else {
                sanitize_filename(video_title)
            };
            let middle = if cp_len == 0 {
                title
            } else {
                let mut m = cp;
                push_char(&mut m, ' ');
                push_char(&mut m, '-');
                push_char(&mut m, ' ');
                push_str(&mut m, title.as_str());
                assert(m@ =~= char_part(views(characters@), char_sep@) + dash() + title@);
                m
            };
            if ap_len == 0 {
                middle
            } else {
                let mut r = middle;
                push_char(&mut r, ' ');
                push_str(&mut r, ap.as_str());
                r
            }
        },
    }
}

/// What `u32::from_str` gives for the characters `t`.
pub fn parse_u32_chars(t: &[char]) -> (r: Option<u32>)
    ensures
        r == parse_u32(t@),
{
    let start: usize = if t.len() > 0 && t[0] == '+' {
        1
    } else {
        0
    };
    let ghost d = unsigned_digits(t@);
    assert(d =~= t@.skip(start as int));
    if start >= t.len() {
        assert(d.len() == 0);
        return None;
    }
    let mut val: u64 = 0;
    let mut over = false;
    let mut k: usize = start;
    while k < t.len()
        invariant
            start <= k <= t@.len(),
            d == t@.skip(start as int),
            d == unsigned_digits(t@),
            all_digits(t@.subrange(start as int, k as int)),
            !over ==> val == digits_value(t@.subrange(start as int, k as int)) && val <= u32::MAX,
            over ==> digits_value(t@.subrange(start as int, k as int)) > u32::MAX,
        decreases t.len() - k,
    {
        let c = t[k];
        if !is_digit_char(c) {
            assert(d[k - start] == c);
            assert(!is_digit(d[k - start]));
            assert(!all_digits(d));
            return None;
        }
        let ghost pre = t@.subrange(start as int, k as int);
        let ghost post = t@.subrange(start as int, k + 1);
        assert(post.drop_last() =~= pre);
        assert(post.last() == c);
        let dv = digit_of(c);
        if !over {
            let nv = val * 10 + dv;
            if nv > u32::MAX as u64 {
                over = true;
            } else {
                val = nv;
            }
        }
        assert(all_digits(post)) by {
            assert forall|j: int| 0 <= j < post.len() implies is_digit(#[trigger] post[j]) by {
                if j < pre.len() {
                    assert(post[j] == pre[j]);
                }
            }
        }
        k = k + 1;
    }
    assert(t@.subrange(start as int, t@.len() as int) =~= d);
    if over {
        None
    } else {
        Some(val as u32)
    }
}

/// The index of the last `" - "` in `s`, if there is one.
pub fn find_last_dash(s: &[char]) -> (r: Option<usize>)
    ensures
        match r {
            Some(p) => p == last_dash(s@) && p + 3 <= s@.len(),
            None => last_dash(s@) == -1,
        },
{
    if s.len() < 3 {
        assert(last_dash(s@) == -1);
        return None;
    }
    let mut i: usize = s.len() - 3;
    loop
        invariant
            i + 3 <= s@.len(),
            last_dash_from(s@, i as int) == last_dash(s@),
        decreases i,
    {
        if s[i] == ' ' && s[i + 1] == '-' && s[i + 2] == ' ' {
            assert(s@.subrange(i as int, i + 3) =~= dash());
            return Some(i);
        }
        assert(!occurs_at(s@, dash(), i as int)) by {
            if occurs_at(s@, dash(), i as int) {
                assert(s@.subrange(i as int, i + 3)[0] == s@[i as int]);
                assert(s@.subrange(i as int, i + 3)[1] == s@[i + 1]);
                assert(s@.subrange(i as int, i + 3)[2] == s@[i + 2]);
            }
        }
        if i == 0 {
            assert(last_dash_from(s@, -1) == -1);
            return None;
        }
        i = i - 1;
    }
}

/// Splits a numbered stem `<base> - <n>` into its base and its number.
///
/// The number follows the last `" - "` of the stem and is read as
/// `u32::from_str` reads it; a stem without such a part, or with the number 0,
/// gives `None`.
pub fn parse_suffix_number(stem: &str) -> (r: Option<(String, u32)>)
    ensures
        match r {
            Some((base, n)) => suffix_number(stem@) == Some((base@, n)),
            None => suffix_number(stem@) is None,
        },
{
    let s = chars_of(stem);
    match find_last_dash(s.as_slice()) {
        None => None,
        Some(p) => {
            let len = s.len();
            assert(p + 3 <= len);
            let rest = slice_chars(s.as_slice(), p + 3, len);
            assert(rest@ =~= stem@.skip(p + 3));
            match parse_u32_chars(rest.as_slice()) {
                None => None,
                Some(n) => {
                    if n == 0 {
                        None
                    } else {
                        let base = slice_chars(s.as_slice(), 0, p);
                        assert(base@ =~= stem@.take(p as int));
                        Some((string_of(base.as_slice()), n))
                    }
                },
            }
        },
    }
}

/// The keys of the files of a folder, in order (`None` for a name without a stem).
fn stem_keys(files: &[String]) -> (keys: Vec<Option<String>>)
    ensures
        keys@.len() == files@.len(),
        forall|i: int| 0 <= i < files@.len() ==> #[trigger] ascii_keyed(files@[i]@),
        forall|i: int|
            0 <= i < files@.len() ==> match #[trigger] keys@[i] {
                Some(k) => stem_key(files@[i]@) == Some(k@),
                None => stem_key(files@[i]@) is None,
            },
{
    let mut keys: Vec<Option<String>> = Vec::new();
    let mut i: usize = 0;
    while i < files.len()
        invariant
            i <= files@.len(),
            keys@.len() == i,
            forall|j: int|
                0 <= j < i ==> match #[trigger] keys@[j] {
                    Some(k) => stem_key(files@[j]@) == Some(k@),
                    None => stem_key(files@[j]@) is None,
                },
            forall|j: int| 0 <= j < i ==> #[trigger] ascii_keyed(files@[j]@),
        decreases files.len() - i,
    {
        let key = match file_stem_chars(chars_of(files[i].as_str()).as_slice()) {
            Some(st) => {
                let st = string_of(st.as_slice());
                Some(to_lowercase(st.as_str()))
            },
            None => None,
        };
        keys.push(key);
        i = i + 1;
    }
    keys
}

/// The first index whose key is `k`, if any.
fn find_key(files: &[String], keys: &[Option<String>], k: &String) -> (r: Option<usize>)
    requires
        keys@.len() == files@.len(),
        forall|i: int|
            0 <= i < files@.len() ==> match #[trigger] keys@[i] {
                Some(kk) => stem_key(files@[i]@) == Some(kk@),
                None => stem_key(files@[i]@) is None,
            },
    ensures
        match r {
            Some(i) => first_with_key(views(files@), k@, i as int),
            None => !key_taken(views(files@), k@),
        },
{
    let ghost fs = views(files@);
    let mut i: usize = 0;
    while i < keys.len()
        invariant
            i <= keys@.len(),
            keys@.len() == files@.len(),
            fs == views(files@),
            forall|j: int|
                0 <= j < files@.len() ==> match #[trigger] keys@[j] {
                    Some(kk) => stem_key(files@[j]@) == Some(kk@),
                    None => stem_key(files@[j]@) is None,
                },
            forall|j: int| 0 <= j < i ==> #[trigger] stem_key(fs[j]) != Some(k@),
        decreases keys.len() - i,
    {
        let hit = match &keys[i] {
            Some(kk) => *kk == *k,
            None => false,
        };
        assert(fs[i as int] == files@[i as int]@);
        if hit {
            return Some(i);
        }
        i = i + 1;
    }
    assert forall|j: int| 0 <= j < fs.len() implies #[trigger] stem_key(fs[j]) != Some(k@) by {}
    None
}

/// The numbered stem `<stem> - <n>`.
pub fn numbered_stem(stem: &str, n: u64) -> (r: String)
    ensures
        r@ == numbered(stem@, n as nat),
{
    let mut r = string_of(chars_of(stem).as_slice());
    push_char(&mut r, ' ');
    push_char(&mut r, '-');
    push_char(&mut r, ' ');
    let d = decimal_chars(n);
    let ds = string_of(d.as_slice());
    push_str(&mut r, ds.as_str());
    assert(r@ =~= numbered(stem@, n as nat));
    r
}

/// The least number from 2 to `u32::MAX` that is free for `stem`, if any.
fn first_free_number(files: &[String], keys: &[Option<String>], stem: &str) -> (r: Option<u64>)
    requires
        keys@.len() == files@.len(),
        forall|i: int|
            0 <= i < files@.len() ==> match #[trigger] keys@[i] {
                Some(kk) => stem_key(files@[i]@) == Some(kk@),
                None => stem_key(files@[i]@) is None,
            },
    ensures
        match r {
            Some(n) => least_free_number(views(files@), stem@, n as nat),
            None => !has_free_number(views(files@), stem@),
        },
{
    let ghost fs = views(files@);
    let mut n: u64 = 2;
    while n <= u32::MAX as u64
        invariant
            2 <= n <= u32::MAX as u64 + 1,
            keys@.len() == files@.len(),
            fs == views(files@),
            forall|i: int|
                0 <= i < files@.len() ==> match #[trigger] keys@[i] {
                    Some(kk) => stem_key(files@[i]@) == Some(kk@),
                    None => stem_key(files@[i]@) is None,
                },
            forall|m: nat| 2 <= m < n ==> #[trigger] suffix_taken(fs, stem@, m),
        decreases u32::MAX as u64 + 1 - n,
    {
        let name = numbered_stem(stem, n);
        let key = to_lowercase(name.as_str());
        match find_key(files, keys, &key) {
            None => {
                return Some(n);
            },
            Some(i) => {
                assert(suffix_taken(fs, stem@, n as nat));
            },
        }
        n = n + 1;
    }
    assert forall|m: nat| 2 <= m <= u32::MAX implies #[trigger] suffix_taken(fs, stem@, m) by {}
    None
}

/// The name of the existing file, the renamed existing file and the new file,
/// when the file holding `stem` becomes `<stem> - 1` and the new one `<stem> - <n>`.
fn rename_existing(files: &[String], i: usize, stem: &str, ext: &str, n: u64) -> (r: ResolvedName)
    requires
        i < files@.len(),
        n <= u32::MAX,
    ensures
        match r {
            ResolvedName::RenameExisting { existing_old, existing_new, new_file } => {
                &&& existing_old@ == files@[i as int]@
                &&& existing_new@ == file_name_of(
                    numbered(stem@, 1),
                    lowercase(ext_or_empty(existing_old@)),
                )
                &&& new_file@ == file_name_of(numbered(stem@, n as nat), ext@)
            },
            _ => false,
        },
{
    let existing_old = string_of(chars_of(files[i].as_str()).as_slice());
    let e = match extension_chars(chars_of(existing_old.as_str()).as_slice()) {
        Some(e) => string_of(e.as_slice()),
        None => String::new(),
    };
    let existing_ext = to_lowercase(e.as_str());
    let s1 = numbered_stem(stem, 1);
    let s2 = numbered_stem(stem, n);
    let existing_new = make_filename(s1.as_str(), existing_ext.as_str());
    let new_file = make_filename(s2.as_str(), ext);
    ResolvedName::RenameExisting { existing_old, existing_new, new_file }
}

/// Chooses the name of a new file with `stem` and `ext` in a folder that holds
/// the files named `files` (regular files only, in any order), so that it
/// clashes with none of them; stems are compared without regard to case.
///
/// If the stem is free and `<stem> - 1` too, the file keeps its name. If the
/// stem is taken and `<stem> - 1` is free, the file holding the stem (the first
/// in `files`) is to become `<stem> - 1` with its extension lowercased. In
/// either numbered case the new file takes the first free `<stem> - <n>` from
/// `n = 2` on, so that no name it is given is taken.
pub fn resolve_conflict(files: &[String], stem: &str, ext: &str) -> (r: ResolvedName)
    requires
        needs_number(views(files@), stem@) ==> has_free_number(views(files@), stem@),
    ensures
        resolves(views(files@), stem@, ext@, r),
        is_ascii_text(stem@) ==> lowercase(stem@) == ascii_lowered(stem@),
        forall|i: int| 0 <= i < files@.len() ==> #[trigger] ascii_keyed(files@[i]@),
{
    match try_resolve_conflict(files, stem, ext) {
        Some(r) => r,
        None => {
            proof {
                assert(false);
            }
            ResolvedName::Free(make_filename(stem, ext))
        },
    }
}

/// [`resolve_conflict`] for every folder: `None` exactly when the new file must
/// be numbered and every number from 2 to `u32::MAX` is taken.
pub fn try_resolve_conflict(files: &[String], stem: &str, ext: &str) -> (r: Option<ResolvedName>)
    ensures
        is_ascii_text(stem@) ==> lowercase(stem@) == ascii_lowered(stem@),
        forall|i: int| 0 <= i < files@.len() ==> #[trigger] ascii_keyed(files@[i]@),
        match r {
            Some(rn) => resolves(views(files@), stem@, ext@, rn),
            None => needs_number(views(files@), stem@) && !has_free_number(views(files@), stem@),
        },
{
    let ghost fs = views(files@);
    let keys = stem_keys(files);
    let key = to_lowercase(stem);
    let s1 = numbered_stem(stem, 1);
    let key1 = to_lowercase(s1.as_str());
    let found = find_key(files, keys.as_slice(), &key);
    let found1 = find_key(files, keys.as_slice(), &key1);
    match (found, found1) {
        (Some(i), None) => {
            match first_free_number(files, keys.as_slice(), stem) {
                Some(n) => {
                    let r = rename_existing(files, i, stem, ext, n);
                    proof {
                        assert(fs[i as int] == files@[i as int]@);
                    }
                    Some(r)
                },
                None => None,
            }
        },
        (None, None) => Some(ResolvedName::Free(make_filename(stem, ext))),
        _ => {
            match first_free_number(files, keys.as_slice(), stem) {
                Some(n) => {
                    let name = numbered_stem(stem, n);
                    Some(ResolvedName::NextSuffix(make_filename(name.as_str(), ext)))
                },
                None => None,
            }
        },
    }
}

/// Sanitizing a name twice gives what sanitizing it once gives.
pub proof fn lemma_sanitize_idempotent(s: Seq<char>)
    ensures
        sanitized(sanitized(s)) == sanitized(s),
{
    let m = s.map_values(|c: char| safe_char(c));
    let t = sanitized(s);
    crate::text::lemma_trim_bounds(m);
    let a = crate::text::skip_white(m, 0);
    assert forall|i: int| 0 <= i < t.len() implies !is_forbidden(#[trigger] t[i]) by {
        assert(t[i] == m[a + i]);
    }
    assert(t.map_values(|c: char| safe_char(c)) =~= t);
    crate::text::lemma_trim_idempotent(m);
}

/// A name chosen for a new file never takes a stem already in the folder: a
/// free name keeps a stem no file has, and a numbered name takes a number no
/// file has; when the file holding the stem is renumbered instead, its new
/// `- 1` stem is free and the new file takes a number no file has.
pub proof fn lemma_resolved_stem_is_free(files: Seq<Seq<char>>, stem: Seq<char>, ext: Seq<char>, r: ResolvedName)
    requires
        resolves(files, stem, ext, r),
    ensures
        match r {
            ResolvedName::Free(_) => !key_taken(files, lowercase(stem)),
            ResolvedName::NextSuffix(name) => exists|n: nat|
                2 <= n && !suffix_taken(files, stem, n) && name@ == #[trigger] file_name_of(numbered(stem, n), ext),
            ResolvedName::RenameExisting { new_file, .. } => !suffix_taken(files, stem, 1) && exists|n: nat|
                2 <= n && !suffix_taken(files, stem, n) && new_file@ == #[trigger] file_name_of(numbered(stem, n), ext),
        },
{
    if let ResolvedName::RenameExisting { new_file, .. } = r {
        let n = choose|n: nat| least_free_number(files, stem, n) && new_file@ == #[trigger] file_name_of(numbered(stem, n), ext);
        assert(2 <= n && !suffix_taken(files, stem, n) && new_file@ == file_name_of(numbered(stem, n), ext));
    }
    if let ResolvedName::NextSuffix(name) = r {
        let n = choose|n: nat| least_free_number(files, stem, n) && name@ == #[trigger] file_name_of(numbered(stem, n), ext);
        assert(2 <= n && !suffix_taken(files, stem, n) && name@ == file_name_of(numbered(stem, n), ext));
    }
}

/// Every item of a stable sort of `s` is an item of `s`.
proof fn lemma_sorted_item_in(r: Seq<Arc<MediaItem>>, s: Seq<Arc<MediaItem>>, i: int)
    requires
        stably_sorted(r, s),
        0 <= i < r.len(),
    ensures
        s.contains(r[i]),
{
    let k = order_key(r[i].path@);
    let f = |a: Arc<MediaItem>| order_key(a.path@) == k;
    r.lemma_filter_contains(f, i);
    assert(with_key(r, k) == with_key(s, k));
    s.lemma_filter_contains_rev(f, r[i]);
}

/// In a reordered group of two or more files, no two positions share a target
/// name, so the second phase never moves two files onto one name.
pub proof fn lemma_reorder_targets_distinct(count: nat, i: nat, j: nat, base: Seq<char>, ext: Seq<char>)
    requires
        i < count,
        j < count,
        i != j,
    ensures
        reorder_target(count, i, base, ext) != reorder_target(count, j, base, ext),
{
    let x = numbered_file(base, i + 1, ext);
    let y = numbered_file(base, j + 1, ext);
    let di = decimal((i + 1) as nat);
    let dj = decimal((j + 1) as nat);
    lemma_decimal((i + 1) as nat);
    lemma_decimal((j + 1) as nat);
    if x == y {
        let b: int = base.len() as int + 3;
        assert(x.len() == b + di.len() + 1 + ext.len());
        assert(y.len() == b + dj.len() + 1 + ext.len());
        assert(x.subrange(b, b + di.len() as int) =~= di);
        assert(y.subrange(b, b + dj.len() as int) =~= dj);
        assert(di == dj);
    }
}

/// While a group is reordered, no two files wait under the same temporary name.
pub proof fn lemma_reorder_temps_distinct(ts: nat, i: nat, j: nat, ext: Seq<char>)
    requires
        i != j,
    ensures
        reorder_temp(ts, i, ext) != reorder_temp(ts, j, ext),
{
    let pre = seq!['_', '_', 'n', 'e', 'x', 'a', '_', 'r', 'o', '_'] + decimal(ts) + seq!['_'];
    let di = decimal(i);
    let dj = decimal(j);
    lemma_decimal(i);
    lemma_decimal(j);
    let x = reorder_temp(ts, i, ext);
    let y = reorder_temp(ts, j, ext);
    assert(x =~= pre + di + seq!['.'] + ext);
    assert(y =~= pre + dj + seq!['.'] + ext);
    if x == y {
        let b: int = pre.len() as int;
        assert(x.subrange(b, b + di.len() as int) =~= di);
        assert(y.subrange(b, b + dj.len() as int) =~= dj);
        assert(di == dj);
    }
}

/// Whether the lowercased parts of the group key of the file at `p` are its
/// extension and its base with ASCII capitals made small, where those are
/// ASCII text (what `str::to_lowercase` gives there).
pub open spec fn ascii_grouped(p: Seq<char>) -> bool {
    match file_stem(p) {
        Some(st) => {
            &&& is_ascii_text(base_of(st)) ==> lowercase(base_of(st)) == ascii_lowered(base_of(st))
            &&& match extension(p) {
                Some(e) => is_ascii_text(e) ==> lowercase(e) == ascii_lowered(e),
                None => true,
            }
        },
        None => true,
    }
}

/// The group of the file at `p`, computed.
fn group_key_of(p: &str) -> (r: Option<(String, String, String)>)
    ensures
        ascii_grouped(p@),
        match r {
            Some((d, e, b)) => group_key(p@) == Some((d@, e@, b@)),
            None => group_key(p@) is None,
        },
{
    let pc = chars_of(p);
    match file_stem_chars(pc.as_slice()) {
        None => None,
        Some(st) => {
            let dir = string_of(parent_chars(pc.as_slice()).as_slice());
            let ext = match extension_chars(pc.as_slice()) {
                Some(e) => to_lowercase(string_of(e.as_slice()).as_str()),
                None => String::new(),
            };
            let stem = string_of(st.as_slice());
            let base = match parse_suffix_number(stem.as_str()) {
                Some((b, _)) => b,
                None => stem,
            };
            Some((dir, ext, to_lowercase(base.as_str())))
        },
    }
}

/// The order number of the file at `p`, computed.
fn order_key_of(p: &str) -> (r: u32)
    ensures
        r == order_key(p@),
{
    let stem = match file_stem_chars(chars_of(p).as_slice()) {
        Some(s) => string_of(s.as_slice()),
        None => String::new(),
    };
    match parse_suffix_number(stem.as_str()) {
        Some((_, n)) => n,
        None => 0,
    }
}

/// Whether two group keys are the same.
fn same_key(a: &(String, String, String), b: &(String, String, String)) -> (r: bool)
    ensures
        r == ((a.0@, a.1@, a.2@) == (b.0@, b.1@, b.2@)),
{
    a.0 == b.0 && a.1 == b.1 && a.2 == b.2
}

/// Inserting `x` where every item before has a number at most its own and
/// every item after a greater one keeps the items of each number in order.
proof fn lemma_insert_keeps_groups(out: Seq<Arc<MediaItem>>, p: int, x: Arc<MediaItem>, k: u32)
    requires
        0 <= p <= out.len(),
        forall|q: int| p <= q < out.len() ==> order_key(#[trigger] out[q].path@) > order_key(x.path@),
    ensures
        with_key(out.insert(p, x), k) == if order_key(x.path@) == k {
            with_key(out, k).push(x)
        } else {
            with_key(out, k)
        },
{
    let f = |a: Arc<MediaItem>| order_key(a.path@) == k;
    let pre = out.take(p);
    let post = out.skip(p);
    assert(out.insert(p, x) =~= pre + seq![x] + post);
    assert(out =~= pre + post);
    Seq::filter_distributes_over_add(pre + seq![x], post, f);
    Seq::filter_distributes_over_add(pre, seq![x], f);
    Seq::filter_distributes_over_add(pre, post, f);
    assert(seq![x].drop_last() =~= Seq::<Arc<MediaItem>>::empty());
    reveal_with_fuel(Seq::filter, 2);
    if order_key(x.path@) == k {
        assert forall|q: int| 0 <= q < post.len() implies !f(#[trigger] post[q]) by {
            assert(post[q] == out[p + q]);
        }
        assert(post.all(|y: Arc<MediaItem>| !f(y)));
        post.lemma_all_neg_filter_empty(f);
        assert(post.filter(f) =~= Seq::<Arc<MediaItem>>::empty());
        assert(seq![x].filter(f) =~= seq![x]);
        assert(with_key(out, k) =~= pre.filter(f));
        assert(with_key(out.insert(p, x), k) =~= pre.filter(f) + seq![x]);
    } else {
        assert(seq![x].filter(f) =~= Seq::<Arc<MediaItem>>::empty());
        assert(with_key(out.insert(p, x), k) =~= pre.filter(f) + post.filter(f));
    }
}

/// `s` ordered by number, keeping the order of items with the same number.
fn sort_by_number(s: &Vec<Arc<MediaItem>>) -> (r: Vec<Arc<MediaItem>>)
    ensures
        stably_sorted(r@, s@),
{
    let mut out: Vec<Arc<MediaItem>> = Vec::new();
    let mut keys: Vec<u32> = Vec::new();
    let mut i: usize = 0;
    while i < s.len()
        invariant
            i <= s@.len(),
            out@.len() == i,
            keys@.len() == i,
            forall|q: int| 0 <= q < i ==> #[trigger] keys@[q] == order_key(out@[q].path@),
            forall|a: int, b: int|
                0 <= a < b < out@.len() ==> order_key(out@[a].path@) <= order_key(out@[b].path@),
            forall|k: u32| #[trigger] with_key(out@, k) == with_key(s@.take(i as int), k),
        decreases s.len() - i,
    {
        let x = share(&s[i]);
        let kx = order_key_of(x.path.as_str());
        let mut p: usize = 0;
        while p < out.len() && keys[p] <= kx
            invariant
                p <= out@.len(),
                keys@.len() == out@.len(),
                forall|q: int| 0 <= q < out@.len() ==> #[trigger] keys@[q] == order_key(out@[q].path@),
                forall|q: int| 0 <= q < p ==> order_key(#[trigger] out@[q].path@) <= kx,
            decreases out.len() - p,
        {
            p = p + 1;
        }
        let ghost old_out = out@;
        let ghost old_keys = keys@;
        proof {
            assert forall|q: int| p <= q < old_out.len() implies order_key(
                #[trigger] old_out[q].path@,
            ) > order_key(x.path@) by {
                assert(order_key(old_out[p as int].path@) > kx);
            }
            assert forall|k: u32| #[trigger] with_key(old_out.insert(p as int, x), k) == with_key(
                s@.take(i + 1),
                k,
            ) by {
                lemma_insert_keeps_groups(old_out, p as int, x, k);
                reveal(Seq::filter);
                assert(s@.take(i + 1).drop_last() =~= s@.take(i as int));
                assert(s@.take(i + 1).last() == x);
            }
        }
        out.insert(p, x);
        keys.insert(p, kx);
        proof {
            assert(out@ =~= old_out.insert(p as int, x));
            assert forall|q: int| 0 <= q < out@.len() implies #[trigger] keys@[q] == order_key(
                out@[q].path@,
            ) by {
                if q < p {
                    assert(out@[q] == old_out[q]);
                    assert(keys@[q] == old_keys[q]);
                } else if q > p {
                    assert(out@[q] == old_out[q - 1]);
                    assert(keys@[q] == old_keys[q - 1]);
                }
            }
            assert forall|a: int, b: int| 0 <= a < b < out@.len() implies order_key(
                out@[a].path@,
            ) <= order_key(out@[b].path@) by {
                if b < p {
                } else if a < p && b == p {
                } else if a < p && b > p {
                    assert(out@[b] == old_out[b - 1]);
                    assert(order_key(old_out[b - 1].path@) > kx);
                } else if a == p {
                    assert(out@[b] == old_out[b - 1]);
                    assert(order_key(old_out[b - 1].path@) > kx);
                } else {
                    assert(out@[a] == old_out[a - 1]);
                    assert(out@[b] == old_out[b - 1]);
                }
            }
        }
        i = i + 1;
    }
    assert(s@.take(s@.len() as int) =~= s@);
    out
}

/// The files of the group of `item` among `all_items`: the files in the same
/// folder, with the same extension (ignoring case) and the same base stem
/// (ignoring case and the ` - <n>` number), ordered by number, the unnumbered
/// file first and files with the same number in their order in `all_items`.
/// A group of fewer than two files is no group: the result is then empty.
pub fn find_suffix_group(item: &MediaItem, all_items: &[Arc<MediaItem>]) -> (r: Vec<Arc<MediaItem>>)
    ensures
        group_members(item.path@, all_items@).len() < 2 ==> r@.len() == 0,
        group_members(item.path@, all_items@).len() >= 2 ==> stably_sorted(
            r@,
            group_members(item.path@, all_items@),
        ),
        r@.len() != 1,
        forall|i: int| 0 <= i < r@.len() ==> same_group(item.path@, #[trigger] r@[i].path@),
        ascii_grouped(item.path@),
        group_key(item.path@) is Some ==> forall|i: int|
            0 <= i < all_items@.len() ==> #[trigger] ascii_grouped(all_items@[i].path@),
{
    let ghost pred = |a: Arc<MediaItem>| same_group(item.path@, a.path@);
    let key = match group_key_of(item.path.as_str()) {
        Some(k) => k,
        None => {
            proof {
                assert forall|q: int| 0 <= q < all_items@.len() implies !pred(
                    #[trigger] all_items@[q],
                ) by {}
                assert(all_items@.all(|y: Arc<MediaItem>| !pred(y)));
                all_items@.lemma_all_neg_filter_empty(pred);
            }
            return Vec::new();
        },
    };
    let mut members: Vec<Arc<MediaItem>> = Vec::new();
    let mut i: usize = 0;
    while i < all_items.len()
        invariant
            i <= all_items@.len(),
            group_key(item.path@) == Some((key.0@, key.1@, key.2@)),
            pred == (|a: Arc<MediaItem>| same_group(item.path@, a.path@)),
            members@ == all_items@.take(i as int).filter(pred),
            ascii_grouped(item.path@),
            forall|j: int| 0 <= j < i ==> #[trigger] ascii_grouped(all_items@[j].path@),
        decreases all_items.len() - i,
    {
        let a = &all_items[i];
        let hit = match group_key_of(a.path.as_str()) {
            Some(k) => same_key(&k, &key),
            None => false,
        };
        assert(all_items@.take(i + 1).drop_last() =~= all_items@.take(i as int));
        assert(hit == pred(all_items@[i as int]));
        reveal(Seq::filter);
        if hit {
            members.push(share(a));
        }
        i = i + 1;
    }
    assert(all_items@.take(all_items@.len() as int) =~= all_items@);
    if members.len() < 2 {
        return Vec::new();
    }
    let r = sort_by_number(&members);
    proof {
        assert forall|i: int| 0 <= i < r@.len() implies same_group(item.path@, #[trigger] r@[i].path@) by {
            lemma_sorted_item_in(r@, members@, i);
            let j = choose|j: int| 0 <= j < members@.len() && members@[j] == r@[i];
            all_items@.lemma_filter_pred(pred, j);
        }
    }
    r
}

/// The name `<base> - <n>.<ext>` of a numbered file of a group.
pub open spec fn numbered_file(base: Seq<char>, n: nat, ext: Seq<char>) -> Seq<char> {
    numbered(base, n) + seq!['.'] + ext
}

/// Where renumbering after deleting the file at `p` starts, if that file was
/// numbered: its folder, the base of its stem, its lowercased extension, and
/// the number after its own, the first that moves down.
pub open spec fn reindex_origin(p: Seq<char>) -> Option<(Seq<char>, Seq<char>, Seq<char>, nat)> {
    match (file_stem(p), extension(p)) {
        (Some(stem), Some(e)) => match suffix_number(stem) {
            Some((base, n)) => Some((parent_text(p), base, lowercase(e), (n + 1) as nat)),
            None => None,
        },
        _ => None,
    }
}

/// Whether the file at `p` has an extension and carries the largest number a
/// `u32` holds, after which no number follows.
pub open spec fn has_last_number(p: Seq<char>) -> bool {
    match (file_stem(p), extension(p)) {
        (Some(stem), Some(_)) => match suffix_number(stem) {
            Some((_, n)) => n == u32::MAX,
            None => false,
        },
        _ => false,
    }
}

/// Where renumbering starts after a numbered file was deleted.
pub struct ReindexStart {
    pub dir: String,
    pub base_stem: String,
    pub ext: String,
    pub first: u32,
}

/// The name `<base> - <n>.<ext>` of a numbered file.
pub fn numbered_file_name(base: &str, n: u32, ext: &str) -> (r: String)
    ensures
        r@ == numbered_file(base@, n as nat, ext@),
{
    let mut r = numbered_stem(base, n as u64);
    push_char(&mut r, '.');
    push_str(&mut r, ext);
    r
}

/// Where the files after a deleted numbered file start to move down by one
/// (see [`reindex_origin`]); `None` when the deleted file was not numbered or
/// has no extension.
pub fn reindex_start(deleted_path: &str) -> (r: Option<ReindexStart>)
    requires
        !has_last_number(deleted_path@),
    ensures
        match r {
            Some(st) => reindex_origin(deleted_path@) == Some(
                (st.dir@, st.base_stem@, st.ext@, st.first as nat),
            ),
            None => reindex_origin(deleted_path@) is None,
        },
{
    let pc = chars_of(deleted_path);
    let stem = match file_stem_chars(pc.as_slice()) {
        Some(s) => string_of(s.as_slice()),
        None => return None,
    };
    let ext = match extension_chars(pc.as_slice()) {
        Some(e) => to_lowercase(string_of(e.as_slice()).as_str()),
        None => return None,
    };
    let dir = string_of(parent_chars(pc.as_slice()).as_slice());
    match parse_suffix_number(stem.as_str()) {
        Some((base, n)) => Some(ReindexStart { dir, base_stem: base, ext, first: n + 1 }),
        None => None,
    }
}

/// What renumbering after a deletion does next.
pub enum ReindexAction {
    /// Rename the file `from_name` of the folder to `to_name`, one number
    /// down, and go on with the number `next`.
    Rename { from_name: String, to_name: String, next: u32 },
    /// No file bears the number: the files after the deleted one are done.
    Finish,
}

/// One step of renumbering after a deletion: whether the file numbered `n`
/// (`<base> - <n>.<ext>`) exists decides whether it moves down to `n - 1`.
pub fn reindex_step(start: &ReindexStart, n: u32, exists: bool) -> (r: ReindexAction)
    requires
        n >= 2,
        exists ==> n < u32::MAX,
    ensures
        !exists ==> r is Finish,
        exists ==> (r matches ReindexAction::Rename { from_name, to_name, next } && from_name@ == numbered_file(
            start.base_stem@,
            n as nat,
            start.ext@,
        ) && to_name@ == numbered_file(start.base_stem@, (n - 1) as nat, start.ext@) && next == n + 1),
{
    if !exists {
        return ReindexAction::Finish;
    }
    let from_name = numbered_file_name(start.base_stem.as_str(), n, start.ext.as_str());
    let to_name = numbered_file_name(start.base_stem.as_str(), n - 1, start.ext.as_str());
    ReindexAction::Rename { from_name, to_name, next: n + 1 }
}

/// The base name `<base>.<ext>` a lone `<base> - 1.<ext>` goes back to.
pub fn base_file_name(base: &str, ext: &str) -> (r: String)
    ensures
        r@ == base@ + seq!['.'] + ext@,
{
    let mut r = string_of(chars_of(base).as_slice());
    push_char(&mut r, '.');
    push_str(&mut r, ext);
    r
}

/// Whether renumbering ends by renaming a lone `<base> - 1` back to the base
/// name: `- 1` exists while `- 2` and the base name do not.
pub fn collapse_to_base(one_exists: bool, two_exists: bool, base_exists: bool) -> (r: bool)
    ensures
        r == (one_exists && !two_exists && !base_exists),
{
    one_exists && !two_exists && !base_exists
}

/// The views of a rename record: old path, new path, new file name.
pub open spec fn record_view(r: (String, String, String)) -> (Seq<char>, Seq<char>, Seq<char>) {
    (r.0@, r.1@, r.2@)
}

/// The views of a list of rename records.
pub open spec fn records_view(v: Seq<(String, String, String)>) -> Seq<(Seq<char>, Seq<char>, Seq<char>)> {
    v.map_values(|r: (String, String, String)| record_view(r))
}

/// The rename records after the file at `old` was renamed to `new` (named
/// `name`): when the last record already moved a file to `old`, that record
/// now leads straight to `new`; otherwise a new record is added.
pub open spec fn merged_records(
    recs: Seq<(Seq<char>, Seq<char>, Seq<char>)>,
    old: Seq<char>,
    new: Seq<char>,
    name: Seq<char>,
) -> Seq<(Seq<char>, Seq<char>, Seq<char>)> {
    if recs.len() > 0 && recs.last().1 == old {
        recs.drop_last().push((recs.last().0, new, name))
    } else {
        recs.push((old, new, name))
    }
}

/// Records the rename of `old` to `new` (see [`merged_records`]).
pub fn record_rename(
    renames: &mut Vec<(String, String, String)>,
    old_path: String,
    new_path: String,
    new_name: String,
)
    ensures
        records_view(final(renames)@) == merged_records(
            records_view(old(renames)@),
            old_path@,
            new_path@,
            new_name@,
        ),
{
    let ghost before = records_view(renames@);
    let n = renames.len();
    if n > 0 && renames[n - 1].1 == old_path {
        let last = renames.pop().unwrap();
        let first = last.0;
        renames.push((first, new_path, new_name));
        proof {
            assert(records_view(renames@) =~= merged_records(before, old_path@, new_path@, new_name@));
        }
    } else {
        renames.push((old_path, new_path, new_name));
        proof {
            assert(records_view(renames@) =~= merged_records(before, old_path@, new_path@, new_name@));
        }
    }
}

/// Whether `a` and `b` are equal when ASCII letters are compared without
/// regard to case (`str::eq_ignore_ascii_case`).
pub open spec fn eq_ascii_nocase(a: Seq<char>, b: Seq<char>) -> bool {
    a.len() == b.len() && forall|i: int| 0 <= i < a.len() ==> #[trigger] ascii_lower(a[i]) == ascii_lower(b[i])
}

/// Texts that differ only in the case of ASCII letters lowercase alike: for
/// ASCII text, which is what `str::to_lowercase` gives (see
/// [`crate::text::to_lowercase`]), names compare the same whatever their case.
pub proof fn lemma_ascii_case_ignored(a: Seq<char>, b: Seq<char>)
    requires
        eq_ascii_nocase(a, b),
    ensures
        ascii_lowered(a) == ascii_lowered(b),
{
    assert(ascii_lowered(a) =~= ascii_lowered(b));
}

/// `c` with an ASCII capital letter made small.
fn ascii_lower_char(c: char) -> (r: char)
    ensures
        r == ascii_lower(c),
{
    if 'A' <= c && c <= 'Z' {
        let v = (c as u8) + 32;
        v as char
    } else {
        c
    }
}

/// Whether `a` and `b` are equal when ASCII letters are compared without regard to case.
pub fn eq_ignore_ascii_case_chars(a: &[char], b: &[char]) -> (r: bool)
    ensures
        r == eq_ascii_nocase(a@, b@),
{
    if a.len() != b.len() {
        return false;
    }
    let mut i: usize = 0;
    while i < a.len()
        invariant
            i <= a@.len(),
            a@.len() == b@.len(),
            forall|k: int| 0 <= k < i ==> #[trigger] ascii_lower(a@[k]) == ascii_lower(b@[k]),
        decreases a.len() - i,
    {
        if ascii_lower_char(a[i]) != ascii_lower_char(b[i]) {
            return false;
        }
        i = i + 1;
    }
    true
}

/// The name the file at position `i` of a reordered group of `count` files
/// takes: `<base>.<ext>` when the group holds one file, else `<base> - <i + 1>.<ext>`.
pub open spec fn reorder_target(count: nat, i: nat, base: Seq<char>, ext: Seq<char>) -> Seq<char> {
    if count == 1 {
        base + seq!['.'] + ext
    } else {
        numbered_file(base, i + 1, ext)
    }
}

/// The temporary name under which the file at position `i` waits while a
/// group is reordered: `__nexa_ro_<ts>_<i>.<ext>`.
pub open spec fn reorder_temp(ts: nat, i: nat, ext: Seq<char>) -> Seq<char> {
    seq!['_', '_', 'n', 'e', 'x', 'a', '_', 'r', 'o', '_'] + decimal(ts) + seq!['_'] + decimal(i)
        + seq!['.'] + ext
}

/// One file to move while a group is reordered: its position, the temporary
/// name it passes through, and the name it ends with.
pub struct ReorderMove {
    pub index: usize,
    pub temp_name: String,
    pub target: String,
}

/// The views of a move.
pub open spec fn move_view(m: ReorderMove) -> (nat, Seq<char>, Seq<char>) {
    (m.index as nat, m.temp_name@, m.target@)
}

/// The file name of a path, or the empty text.
pub open spec fn name_or_empty(p: Seq<char>) -> Seq<char> {
    match crate::paths::file_name(p) {
        Some(n) => n,
        None => Seq::empty(),
    }
}

/// Whether the file at position `i` already bears its target name (ignoring ASCII case).
pub open spec fn in_place(paths: Seq<Seq<char>>, i: int, base: Seq<char>, ext: Seq<char>) -> bool {
    eq_ascii_nocase(name_or_empty(paths[i]), reorder_target(paths.len(), i as nat, base, ext))
}

/// The moves of the first `k` files of a reordered group, in order: one for
/// each file not already in place.
pub open spec fn reorder_moves(
    paths: Seq<Seq<char>>,
    base: Seq<char>,
    ext: Seq<char>,
    ts: nat,
    k: int,
) -> Seq<(nat, Seq<char>, Seq<char>)>
    decreases k,
{
    if k <= 0 {
        Seq::empty()
    } else if in_place(paths, k - 1, base, ext) {
        reorder_moves(paths, base, ext, ts, k - 1)
    } else {
        reorder_moves(paths, base, ext, ts, k - 1).push(
            ((k - 1) as nat, reorder_temp(ts, (k - 1) as nat, ext), reorder_target(
                paths.len(),
                (k - 1) as nat,
                base,
                ext,
            )),
        )
    }
}

/// The target name of the file at position `i` of a group of `count`.
pub fn reorder_target_name(count: usize, i: usize, base: &str, ext: &str) -> (r: String)
    requires
        i < count,
        count <= u32::MAX,
    ensures
        r@ == reorder_target(count as nat, i as nat, base@, ext@),
{
    if count == 1 {
        let mut r = string_of(chars_of(base).as_slice());
        push_char(&mut r, '.');
        push_str(&mut r, ext);
        r
    } else {
        numbered_file_name(base, (i + 1) as u32, ext)
    }
}

/// The temporary name of the file at position `i`.
fn reorder_temp_name(ts: u64, i: usize, ext: &str) -> (r: String)
    ensures
        r@ == reorder_temp(ts as nat, i as nat, ext@),
{
    let pre = "__nexa_ro_";
    proof {
        reveal_strlit("__nexa_ro_");
    }
    let mut r = string_of(chars_of(pre).as_slice());
    push_str(&mut r, decimal_string(ts).as_str());
    push_char(&mut r, '_');
    push_str(&mut r, decimal_string(i as u64).as_str());
    push_char(&mut r, '.');
    push_str(&mut r, ext);
    assert(r@ =~= reorder_temp(ts as nat, i as nat, ext@));
    r
}

/// The moves that give the files at `paths`, in this order, the names
/// `<base> - 1.<ext>`, `<base> - 2.<ext>`, ... (or `<base>.<ext>` for a single
/// file): every file not already bearing its name (ignoring ASCII case) goes
/// first to a temporary name made with the timestamp `ts`, then to its name.
pub fn plan_group_reorder(paths: &[String], base: &str, ext: &str, ts: u64) -> (r: Vec<ReorderMove>)
    requires
        paths@.len() <= u32::MAX,
    ensures
        r@.map_values(|m: ReorderMove| move_view(m)) == reorder_moves(
            views(paths@),
            base@,
            ext@,
            ts as nat,
            paths@.len() as int,
        ),
{
    let ghost ps = views(paths@);
    let count = paths.len();
    let mut moves: Vec<ReorderMove> = Vec::new();
    let mut i: usize = 0;
    while i < count
        invariant
            i <= count,
            count == paths@.len() <= u32::MAX,
            ps == views(paths@),
            moves@.map_values(|m: ReorderMove| move_view(m)) == reorder_moves(
                ps,
                base@,
                ext@,
                ts as nat,
                i as int,
            ),
        decreases count - i,
    {
        let target = reorder_target_name(count, i, base, ext);
        let current = match crate::paths::file_name_chars(chars_of(paths[i].as_str()).as_slice()) {
            Some(n) => n,
            None => Vec::new(),
        };
        let same = eq_ignore_ascii_case_chars(current.as_slice(), chars_of(target.as_str()).as_slice());
        assert(current@ == name_or_empty(ps[i as int]));
        if !same {
            let ghost before = moves@.map_values(|m: ReorderMove| move_view(m));
            let temp_name = reorder_temp_name(ts, i, ext);
            moves.push(ReorderMove { index: i, temp_name, target });
            assert(moves@.map_values(|m: ReorderMove| move_view(m)) =~= before.push(
                (i as nat, reorder_temp(ts as nat, i as nat, ext@), reorder_target(
                    count as nat,
                    i as nat,
                    base@,
                    ext@,
                )),
            ));
        }
        i = i + 1;
    }
    moves
}

/// The lowercased extension of the file at `path`, or the empty text.
pub fn lowercase_extension(path: &str) -> (r: String)
    ensures
        r@ == lower_ext(path@),
{
    match extension_chars(chars_of(path).as_slice()) {
        Some(e) => to_lowercase(string_of(e.as_slice()).as_str()),
        None => String::new(),
    }
}

/// The group a reorder of the file at `path` works on: its folder, the base of
/// its stem, and its lowercased extension (empty when it has none).
pub fn reorder_group_of(path: &str) -> (r: (String, String, String))
    ensures
        r.0@ == parent_text(path@),
        r.1@ == base_of(stem_or_empty(path@)),
        r.2@ == lower_ext(path@),
{
    let pc = chars_of(path);
    let dir = string_of(parent_chars(pc.as_slice()).as_slice());
    let stem = match file_stem_chars(pc.as_slice()) {
        Some(s) => string_of(s.as_slice()),
        None => String::new(),
    };
    let ext = lowercase_extension(path);
    let base = match parse_suffix_number(stem.as_str()) {
        Some((b, _)) => b,
        None => stem,
    };
    (dir, base, ext)
}

} // verus!

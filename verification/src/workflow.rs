//! The decisions around distributing a staging file into the library and
//! saving an edit: what a confirmed dialog carries, how a moved file is named
//! in its new folder, how the shown lists follow, and when queued work is sent.
use vstd::prelude::*;
use crate::models::{AutocompleteData, MediaItem, MediaModalMode, MediaType, ResolvedName, StagingItem, share};
use crate::modal::{MediaModalState, clone_strings};
use crate::text::{trimmed, views, chars_of, trim_str};
use crate::file_helpers::{
    build_filename_stem, built_stem, try_resolve_conflict, resolves, lower_ext, stem_or_empty,
    needs_number, has_free_number, lowercase_extension,
};
use crate::paths::file_stem_chars;
use crate::library::first_at;
use std::sync::Arc;

verus! {

/// What a confirmed dialog carries into a distribution or an edit.
pub struct DialogValues {
    pub copyright: String,
    pub artist: String,
    pub characters: Vec<String>,
    pub tags: Vec<String>,
    pub video_title: String,
}

/// The values of the dialog: copyright, artist and title trimmed, characters
/// and tags as entered.
pub fn dialog_values(st: &MediaModalState) -> (r: DialogValues)
    ensures
        r.copyright@ == trimmed(st.copyright@),
        r.artist@ == trimmed(st.artist@),
        views(r.characters@) == views(st.characters@),
        views(r.tags@) == views(st.tags@),
        r.video_title@ == trimmed(st.video_title@),
{
    DialogValues {
        copyright: trim_str(st.copyright.as_str()),
        artist: trim_str(st.artist.as_str()),
        characters: clone_strings(&st.characters),
        tags: clone_strings(&st.tags),
        video_title: trim_str(st.video_title.as_str()),
    }
}

/// The message shown when no library folder is configured.
pub open spec fn no_library_text() -> Seq<char> {
    "Library path is not configured."@
}

/// The library folder a distribution or a move goes into: the configured
/// one, or the message that none is configured.
pub fn library_root(library_path: &Option<String>) -> (r: Result<String, String>)
    ensures
        match library_path {
            Some(p) => r matches Ok(q) && q@ == p@,
            None => r matches Err(e) && e@ == no_library_text(),
        },
{
    match library_path {
        Some(p) => Ok(crate::text::string_of(chars_of(p.as_str()).as_slice())),
        None => {
            let m = "Library path is not configured.";
            Err(crate::text::string_of(chars_of(m).as_slice()))
        },
    }
}

/// The folders, one below the other under the library folder, where a file
/// with `copyright` and `artist` belongs; a video goes one level further, into
/// the video subfolder, when one is configured.
pub open spec fn destination(
    copyright: Seq<char>,
    artist: Seq<char>,
    media_type: MediaType,
    video_subfolder: Seq<char>,
) -> Seq<Seq<char>> {
    if media_type == MediaType::Video && video_subfolder.len() > 0 {
        seq![copyright, artist, video_subfolder]
    } else {
        seq![copyright, artist]
    }
}

/// The folders where a file belongs (see [`destination`]), to be joined onto
/// the library folder in this order.
pub fn destination_parts(copyright: &str, artist: &str, media_type: MediaType, video_subfolder: &str) -> (r: Vec<String>)
    ensures
        views(r@) == destination(copyright@, artist@, media_type, video_subfolder@),
{
    let mut r: Vec<String> = Vec::new();
    r.push(crate::text::string_of(chars_of(copyright).as_slice()));
    r.push(crate::text::string_of(chars_of(artist).as_slice()));
    let is_video = match media_type {
        MediaType::Video => true,
        MediaType::Image => false,
    };
    if is_video && chars_of(video_subfolder).len() > 0 {
        r.push(crate::text::string_of(chars_of(video_subfolder).as_slice()));
    }
    assert(views(r@) =~= destination(copyright@, artist@, media_type, video_subfolder@));
    r
}

/// The stem a distributed staging file is given (see [`built_stem`]).
pub open spec fn distributed_stem(item: StagingItem, v: DialogValues, sep: Seq<char>) -> Seq<char> {
    built_stem(item.media_type, views(v.characters@), v.artist@, v.video_title@, item.path@, sep)
}

/// Whether no name is left for a file with `stem` in a folder holding `files`:
/// it must be numbered and every number is taken.
pub open spec fn no_name_left(files: Seq<Seq<char>>, stem: Seq<char>) -> bool {
    needs_number(files, stem) && !has_free_number(files, stem)
}

/// How the staging file `item` is named in the library folder holding the
/// files `files`: its stem is built from the dialog values with `sep` between
/// characters, its extension is lowercased, and clashes are resolved as
/// [`resolves`] says. `None` exactly when no name is left.
pub fn distribute_name(item: &StagingItem, v: &DialogValues, sep: &str, files: &[String]) -> (r: Option<ResolvedName>)
    ensures
        match r {
            Some(rn) => resolves(views(files@), distributed_stem(*item, *v, sep@), lower_ext(item.path@), rn),
            None => no_name_left(views(files@), distributed_stem(*item, *v, sep@)),
        },
{
    let ext = lowercase_extension(item.path.as_str());
    let stem = build_filename_stem(
        &item.media_type,
        v.characters.as_slice(),
        v.artist.as_str(),
        v.video_title.as_str(),
        item.path.as_str(),
        sep,
    );
    try_resolve_conflict(files, stem.as_str(), ext.as_str())
}

/// How a library file that moves to the folder holding `files` is named: it
/// keeps its stem, its extension is lowercased, and clashes are resolved as
/// [`resolves`] says. `None` exactly when no name is left.
pub fn moved_name(old_path: &str, files: &[String]) -> (r: Option<ResolvedName>)
    ensures
        match r {
            Some(rn) => resolves(views(files@), stem_or_empty(old_path@), lower_ext(old_path@), rn),
            None => no_name_left(views(files@), stem_or_empty(old_path@)),
        },
{
    let ext = lowercase_extension(old_path);
    let stem = match file_stem_chars(chars_of(old_path).as_slice()) {
        Some(s) => crate::text::string_of(s.as_slice()),
        None => String::new(),
    };
    try_resolve_conflict(files, stem.as_str(), ext.as_str())
}

/// Whether saving an edit moves the file to another folder: its copyright or
/// its artist changed.
pub fn location_changed(item: &MediaItem, v: &DialogValues) -> (r: bool)
    ensures
        r == (v.copyright@ != item.copyright@ || v.artist@ != item.artist@),
{
    !(crate::media::same_text(chars_of(v.copyright.as_str()).as_slice(), chars_of(item.copyright.as_str()).as_slice())
        && crate::media::same_text(chars_of(v.artist.as_str()).as_slice(), chars_of(item.artist.as_str()).as_slice()))
}

/// The library item that distributing `item` with the dialog values `v`
/// creates at `path`, named `name`.
pub fn distributed_item(item: &StagingItem, v: DialogValues, path: String, name: String, modified: i64) -> (r: MediaItem)
    ensures
        r.path == path,
        r.name == name,
        r.media_type == item.media_type,
        r.copyright == v.copyright,
        r.artist == v.artist,
        r.characters == v.characters,
        r.tags == v.tags,
        r.modified == modified,
{
    MediaItem {
        path,
        name,
        media_type: item.media_type,
        copyright: v.copyright,
        artist: v.artist,
        characters: v.characters,
        tags: v.tags,
        modified,
    }
}

/// Whether `b` is the item `a` after an edit saved with the values `v`, at
/// `path` and named `name`; its date is `modified` when known, else kept.
pub open spec fn edited_item(
    a: MediaItem,
    b: MediaItem,
    path: Seq<char>,
    name: Seq<char>,
    v: DialogValues,
    modified: Option<i64>,
) -> bool {
    &&& b.path@ == path
    &&& b.name@ == name
    &&& b.media_type == a.media_type
    &&& b.copyright@ == v.copyright@
    &&& b.artist@ == v.artist@
    &&& views(b.characters@) == views(v.characters@)
    &&& views(b.tags@) == views(v.tags@)
    &&& b.modified == match modified {
        Some(m) => m,
        None => a.modified,
    }
}

/// Follows a saved edit in the shown items: the first item at `old_path` is
/// replaced by the edited item at `new_path`, named `new_name`; its date is
/// `modified` when known, else kept. Nothing changes if no item is there.
pub fn apply_edit(
    items: &mut Vec<Arc<MediaItem>>,
    old_path: &str,
    new_path: &str,
    new_name: &str,
    v: &DialogValues,
    modified: Option<i64>,
)
    ensures
        final(items)@.len() == old(items)@.len(),
        forall|i: int|
            first_at(old(items)@, old_path@, i) ==> {
                &&& edited_item(*old(items)@[i], *final(items)@[i], new_path@, new_name@, *v, modified)
                &&& forall|j: int| 0 <= j < old(items)@.len() && j != i ==> #[trigger] final(items)@[j] == old(items)@[j]
            },
        (forall|i: int| 0 <= i < old(items)@.len() ==> #[trigger] old(items)@[i].path@ != old_path@)
            ==> final(items)@ == old(items)@,
{
    let p = chars_of(old_path);
    let mut i: usize = 0;
    while i < items.len()
        invariant
            i <= items@.len(),
            items@ == old(items)@,
            p@ == old_path@,
            forall|j: int| 0 <= j < i ==> #[trigger] items@[j].path@ != old_path@,
        decreases items.len() - i,
    {
        if crate::media::same_text(chars_of(items[i].path.as_str()).as_slice(), p.as_slice()) {
            let a = &items[i];
            let m = match modified {
                Some(m) => m,
                None => a.modified,
            };
            let edited = MediaItem {
                path: crate::text::string_of(chars_of(new_path).as_slice()),
                name: crate::text::string_of(chars_of(new_name).as_slice()),
                media_type: a.media_type,
                copyright: crate::text::string_of(chars_of(v.copyright.as_str()).as_slice()),
                artist: crate::text::string_of(chars_of(v.artist.as_str()).as_slice()),
                characters: clone_strings(&v.characters),
                tags: clone_strings(&v.tags),
                modified: m,
            };
            let ghost before = items@;
            items.set(i, Arc::new(edited));
            proof {
                assert forall|k: int| first_at(before, old_path@, k) implies k == i by {
                    if k > i {
                        assert(before[i as int].path@ != old_path@);
                    }
                }
            }
            return;
        }
        i = i + 1;
    }
}

/// The staging files with every file at `path` left out, in their order.
pub open spec fn without_staging_path(items: Seq<Arc<StagingItem>>, path: Seq<char>) -> Seq<Arc<StagingItem>> {
    items.filter(|a: Arc<StagingItem>| a.path@ != path)
}

/// Leaves out of the staging list every file at `path` (distributed or deleted).
pub fn remove_staging_path(items: &mut Vec<Arc<StagingItem>>, path: &str)
    ensures
        final(items)@ == without_staging_path(old(items)@, path@),
{
    let ghost pred = |a: Arc<StagingItem>| a.path@ != path@;
    let ghost orig = items@;
    let mut out: Vec<Arc<StagingItem>> = Vec::new();
    let mut i: usize = 0;
    let p = chars_of(path);
    while i < items.len()
        invariant
            i <= items@.len(),
            items@ == orig,
            p@ == path@,
            pred == (|a: Arc<StagingItem>| a.path@ != path@),
            out@ == orig.take(i as int).filter(pred),
        decreases items.len() - i,
    {
        proof {
            reveal(Seq::filter);
            assert(orig.take(i + 1).drop_last() =~= orig.take(i as int));
            assert(orig.take(i + 1).last() == orig[i as int]);
        }
        let same = crate::media::same_text(chars_of(items[i].path.as_str()).as_slice(), p.as_slice());
        if !same {
            out.push(share(&items[i]));
        }
        i = i + 1;
    }
    assert(orig.take(orig.len() as int) =~= orig);
    *items = out;
}

/// Whether the dialog was just opened to distribute `item` with empty fields
/// and the completion lists of `ac`.
pub open spec fn opened_empty(st: MediaModalState, item: Arc<StagingItem>, ac: AutocompleteData) -> bool {
    &&& st.mode == Some(MediaModalMode::Distribute(item))
    &&& st.copyright@.len() == 0
    &&& st.artist@.len() == 0
    &&& st.characters@.len() == 0
    &&& st.tags@.len() == 0
    &&& st.suggests(ac)
    &&& st.inputs_cleared()
}

/// Starts distributing several staging files: the dialog opens for the first
/// and the others wait in `queue`, in their order. An empty list changes nothing.
pub fn start_queue(
    st: &mut MediaModalState,
    queue: &mut Vec<Arc<StagingItem>>,
    items: Vec<Arc<StagingItem>>,
    ac: &AutocompleteData,
)
    ensures
        items@.len() == 0 ==> *final(st) == *old(st) && final(queue)@ == old(queue)@,
        items@.len() > 0 ==> {
            &&& opened_empty(*final(st), items@[0], *ac)
            &&& final(queue)@ == items@.drop_first()
        },
{
    if items.len() == 0 {
        return;
    }
    let mut rest = items;
    let first = rest.remove(0);
    *queue = rest;
    st.open_distribute(first, ac);
}

/// After a file was distributed: the next queued file is taken off the queue
/// and the dialog opens for it, keeping the copyright, artist, characters and
/// tags entered; with nothing queued the dialog closes.
pub fn advance_queue(st: &mut MediaModalState, queue: &mut Vec<Arc<StagingItem>>, ac: &AutocompleteData)
    ensures
        old(queue)@.len() == 0 ==> final(st).is_blank() && final(queue)@ == old(queue)@,
        old(queue)@.len() > 0 ==> {
            &&& final(queue)@ == old(queue)@.drop_first()
            &&& final(st).mode == Some(MediaModalMode::Distribute(old(queue)@[0]))
            &&& final(st).copyright@ == old(st).copyright@
            &&& final(st).artist@ == old(st).artist@
            &&& views(final(st).characters@) == views(old(st).characters@)
            &&& views(final(st).tags@) == views(old(st).tags@)
            &&& final(st).suggests(*ac)
            &&& final(st).inputs_cleared()
        },
{
    if queue.len() == 0 {
        st.close();
        return;
    }
    let next = queue.remove(0);
    st.open_next_distribute(next, ac);
}

/// What the search box asks for in a frame.
#[derive(Clone, Copy, Debug, PartialEq, Eq, Structural)]
pub enum SearchStep {
    /// The trimmed text is what was last searched for: nothing to do.
    Unchanged,
    /// The text settled: send the query.
    Send,
    /// Wait so many nanoseconds more before sending.
    WaitNanos(u64),
}

/// The search box's step when `input` is typed, `last` was last searched for,
/// and `elapsed` of the `debounce` nanoseconds have passed since the last key.
pub fn search_step(input: &str, last: &str, elapsed: u64, debounce: u64) -> (r: SearchStep)
    ensures
        r == if trimmed(input@) == trimmed(last@) {
            SearchStep::Unchanged
        } else if elapsed >= debounce {
            SearchStep::Send
        } else {
            SearchStep::WaitNanos((debounce - elapsed) as u64)
        },
{
    let a = chars_of(trim_str(input).as_str());
    let b = chars_of(trim_str(last).as_str());
    if crate::media::same_text(a.as_slice(), b.as_slice()) {
        SearchStep::Unchanged
    } else if elapsed >= debounce {
        SearchStep::Send
    } else {
        SearchStep::WaitNanos(debounce - elapsed)
    }
}

/// Whether the completion lists are to be asked for now: they are out of
/// date, no request is on its way, and `debounce` nanoseconds passed since the
/// last one.
pub fn should_refresh_autocomplete(dirty: bool, in_flight: bool, elapsed: u64, debounce: u64) -> (r: bool)
    ensures
        r == (dirty && !in_flight && elapsed >= debounce),
{
    dirty && !in_flight && elapsed >= debounce
}

/// What the window does after the scanner's events of a frame.
#[derive(Clone, Copy, Debug, PartialEq, Eq, Structural)]
pub struct ScanReaction {
    /// Forget pending thumbnails, query the library again, and mark the
    /// completion lists out of date.
    pub refresh_library: bool,
    /// Let the completion lists be asked for at once.
    pub refresh_autocomplete_now: bool,
    /// Query the staging folder again.
    pub refresh_staging: bool,
    /// Draw the window again.
    pub repaint: bool,
}

/// The reaction to a finished library scan, a finished staging scan and a
/// change seen by the folder watcher.
pub fn scan_reaction(scan_finished: bool, staging_finished: bool, watch_changed: bool) -> (r: ScanReaction)
    ensures
        r.refresh_library == (scan_finished || watch_changed),
        r.refresh_autocomplete_now == scan_finished,
        r.refresh_staging == staging_finished,
        r.repaint == (scan_finished || watch_changed || staging_finished),
{
    ScanReaction {
        refresh_library: scan_finished || watch_changed,
        refresh_autocomplete_now: scan_finished,
        refresh_staging: staging_finished,
        repaint: scan_finished || watch_changed || staging_finished,
    }
}

} // verus!

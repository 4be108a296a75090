//! The file selected for the detail panel and its loading state, as far as
//! the decisions about it go; the preview image and file details themselves
//! are held by the interface.
use vstd::prelude::*;
use crate::models::{MediaItem, MediaType, StagingItem};
use crate::text::chars_of;
use crate::media::same_text;
use std::sync::Arc;

verus! {

/// The selection of the library detail panel.
pub struct LibraryDetailState {
    pub selected_item: Option<Arc<MediaItem>>,
    pub selected_path: String,
}

impl LibraryDetailState {
    /// Nothing selected.
    pub fn new() -> (r: Self)
        ensures
            r.selected_item is None,
            r.selected_path@.len() == 0,
    {
        LibraryDetailState { selected_item: None, selected_path: String::new() }
    }

    /// Forgets the path whose details were being loaded.
    pub fn reset_async(&mut self)
        ensures
            final(self).selected_item == old(self).selected_item,
            final(self).selected_path@.len() == 0,
    {
        self.selected_path = String::new();
    }

    /// Whether the file at `path` is the selected one.
    pub fn is_selected(&self, path: &str) -> (r: bool)
        ensures
            r == match self.selected_item {
                Some(it) => it.path@ == path@,
                None => false,
            },
    {
        match &self.selected_item {
            Some(it) => same_text(chars_of(it.path.as_str()).as_slice(), chars_of(path).as_slice()),
            None => false,
        }
    }
}

/// The selection of the staging detail panel.
pub struct StagingDetailState {
    pub selected_item: Option<Arc<StagingItem>>,
    pub selected_path: String,
}

impl StagingDetailState {
    /// Nothing selected.
    pub fn new() -> (r: Self)
        ensures
            r.selected_item is None,
            r.selected_path@.len() == 0,
    {
        StagingDetailState { selected_item: None, selected_path: String::new() }
    }

    /// Forgets the path whose details were being loaded.
    pub fn reset_async(&mut self)
        ensures
            final(self).selected_item == old(self).selected_item,
            final(self).selected_path@.len() == 0,
    {
        self.selected_path = String::new();
    }

    /// Whether the file at `path` is the selected one.
    pub fn is_selected(&self, path: &str) -> (r: bool)
        ensures
            r == match self.selected_item {
                Some(it) => it.path@ == path@,
                None => false,
            },
    {
        match &self.selected_item {
            Some(it) => same_text(chars_of(it.path.as_str()).as_slice(), chars_of(path).as_slice()),
            None => false,
        }
    }
}

/// The media type stored in the database: `"Video"` for a video, an image for
/// anything else.
pub open spec fn stored_media_type(s: Seq<char>) -> MediaType {
    if s == seq!['V', 'i', 'd', 'e', 'o'] {
        MediaType::Video
    } else {
        MediaType::Image
    }
}

/// The media type of a database value (see [`stored_media_type`]).
pub fn media_type_from_db(s: &str) -> (r: MediaType)
    ensures
        r == stored_media_type(s@),
{
    if same_text(chars_of(s).as_slice(), &['V', 'i', 'd', 'e', 'o']) {
        MediaType::Video
    } else {
        MediaType::Image
    }
}

/// The staging item of a database row: path, name, stored type and
/// modification time.
pub fn map_staging_item(path: String, name: String, kind: &str, modified: i64) -> (r: StagingItem)
    ensures
        r.path@ == path@,
        r.name@ == name@,
        r.media_type == stored_media_type(kind@),
        r.modified == modified,
{
    StagingItem { path, name, media_type: media_type_from_db(kind), modified }
}

} // verus!

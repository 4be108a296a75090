//! The library's data: media files, staging files, and the outcomes of naming
//! decisions and modal dialogs.
use vstd::prelude::*;
use std::sync::Arc;

verus! {

/// The kind of a media file.
#[derive(Clone, Copy, Debug, PartialEq, Eq, Structural)]
pub enum MediaType {
    Image,
    Video,
}

/// A file of the library, with its metadata.
#[derive(Clone, Debug)]
pub struct MediaItem {
    pub path: String,
    pub name: String,
    pub media_type: MediaType,
    pub copyright: String,
    pub artist: String,
    pub characters: Vec<String>,
    pub tags: Vec<String>,
    pub modified: i64,
}

/// A file of the staging folder, waiting to be distributed into the library.
#[derive(Clone, Debug)]
pub struct StagingItem {
    pub path: String,
    pub name: String,
    pub media_type: MediaType,
    pub modified: i64,
}

/// How a new file is to be named in a folder so that it clashes with no file there.
#[derive(Clone, Debug, PartialEq, Eq)]
pub enum ResolvedName {
    /// The file keeps its own name: nothing in the folder has its stem.
    Free(String),
    /// The file already in the folder under the wanted stem is renamed to
    /// `<stem> - 1`, and the new file takes the first free `<stem> - <n>`
    /// from `n = 2` on.
    RenameExisting { existing_old: String, existing_new: String, new_file: String },
    /// The new file takes the first free `<stem> - <n>` name.
    NextSuffix(String),
}

/// The values offered for completion in the metadata dialog.
#[derive(Clone, Debug)]
pub struct AutocompleteData {
    pub copyrights: Vec<String>,
    pub artists: Vec<String>,
    pub characters: Vec<String>,
    pub tags: Vec<String>,
}

impl AutocompleteData {
    /// No completion values at all.
    pub fn empty() -> (r: Self)
        ensures
            r.copyrights@.len() == 0,
            r.artists@.len() == 0,
            r.characters@.len() == 0,
            r.tags@.len() == 0,
    {
        AutocompleteData {
            copyrights: Vec::new(),
            artists: Vec::new(),
            characters: Vec::new(),
            tags: Vec::new(),
        }
    }
}

/// What the metadata dialog is open for.
#[derive(Clone, Debug)]
pub enum MediaModalMode {
    /// Editing the metadata of a library file.
    Edit(Arc<MediaItem>),
    /// Distributing a staging file into the library.
    Distribute(Arc<StagingItem>),
}

/// A filter on one metadata field, chosen from the sidebar.
#[derive(Clone, Debug, PartialEq, Eq)]
pub enum FieldFilter {
    Artist(String),
    Copyright(String),
    Tag(String),
}

/// Which kinds of media the library view shows.
#[derive(Clone, Copy, Debug, PartialEq, Eq, Structural)]
pub enum MediaFilter {
    All,
    Images,
    Videos,
}

/// The order of the library view.
#[derive(Clone, Copy, Debug, PartialEq, Eq, Structural)]
pub enum SortOrder {
    NameAsc,
    NameDesc,
    DateDesc,
    DateAsc,
}

/// Which view the window shows.
#[derive(Clone, Copy, Debug, PartialEq, Eq, Structural)]
pub enum ViewMode {
    Library,
    Staging,
}

/// A deletion waiting for the user's confirmation.
#[derive(Clone, Debug)]
pub enum PendingDelete {
    Library(Arc<MediaItem>),
    Staging(Arc<StagingItem>),
    BulkLibrary(Vec<Arc<MediaItem>>),
}

/// Another handle to the value behind `a` (`Arc::clone`).
#[verifier::external_body]
pub(crate) fn share<T>(a: &Arc<T>) -> (r: Arc<T>)
    ensures
        r == *a,
{
    Arc::clone(a)
}

/// What the user asked of the metadata dialog in a frame.
#[derive(Clone, Copy, Debug, PartialEq, Eq, Structural)]
pub enum ModalAction {
    Idle,
    Close,
    SaveEdit,
    Distribute,
}

} // verus!

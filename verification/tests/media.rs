use nexa::detail::{map_staging_item, media_type_from_db, LibraryDetailState, StagingDetailState};
use nexa::media::{build_media_item, is_media_path, media_type_from_ext};
use nexa::models::{MediaItem, MediaType, StagingItem};
use std::sync::Arc;

#[test]
fn extensions_and_types() {
    for e in ["mp4", "mkv", "avi", "mov", "wmv", "flv", "webm"] {
        assert_eq!(media_type_from_ext(e), Some(MediaType::Video), "{e}");
    }
    for e in ["jpg", "jpeg", "png", "gif", "webp", "bmp", "tiff", "tif"] {
        assert_eq!(media_type_from_ext(e), Some(MediaType::Image), "{e}");
    }
    assert_eq!(media_type_from_ext("JPG"), None);
    assert_eq!(media_type_from_ext("txt"), None);
    assert_eq!(media_type_from_ext(""), None);
}

#[test]
fn media_paths() {
    assert!(is_media_path("/a/b.JPG"));
    assert!(is_media_path("clip.Mp4"));
    assert!(is_media_path("/a/b.c.webm"));
    assert!(!is_media_path("/a/b"));
    assert!(!is_media_path("/a/b.txt"));
    assert!(!is_media_path("/a/.png"));
    assert!(!is_media_path("/a/png."));
}

#[test]
fn library_item_from_path() {
    let it = build_media_item("/lib", "/lib/Copy/Art/x.PNG", 5).unwrap();
    assert_eq!(it.path, "/lib/Copy/Art/x.PNG");
    assert_eq!(it.name, "x.PNG");
    assert_eq!(it.media_type, MediaType::Image);
    assert_eq!(it.copyright, "Copy");
    assert_eq!(it.artist, "Art");
    assert!(it.characters.is_empty() && it.tags.is_empty());
    assert_eq!(it.modified, 5);

    let deep = build_media_item("/lib/", "/lib/C/A/sub/clip.mp4", -3).unwrap();
    assert_eq!(deep.media_type, MediaType::Video);
    assert_eq!((deep.copyright.as_str(), deep.artist.as_str()), ("C", "A"));
    assert_eq!(deep.modified, -3);
}

#[test]
fn library_item_refusals() {
    assert!(build_media_item("/lib", "/lib/Copy/x.png", 0).is_none());
    assert!(build_media_item("/lib", "/other/C/A/x.png", 0).is_none());
    assert!(build_media_item("/lib", "/library/C/A/x.png", 0).is_none());
    assert!(build_media_item("/lib", "/lib/C/A/notes.txt", 0).is_none());
    assert!(build_media_item("/lib", "/lib/C/A/noext", 0).is_none());
}

#[test]
fn database_types_and_rows() {
    assert_eq!(media_type_from_db("Video"), MediaType::Video);
    assert_eq!(media_type_from_db("video"), MediaType::Image);
    assert_eq!(media_type_from_db("Image"), MediaType::Image);
    let row = map_staging_item("/s/a.mp4".to_string(), "a.mp4".to_string(), "Video", 42);
    assert_eq!(row.path, "/s/a.mp4");
    assert_eq!(row.name, "a.mp4");
    assert_eq!(row.media_type, MediaType::Video);
    assert_eq!(row.modified, 42);
}

#[test]
fn detail_selection() {
    let mut lib = LibraryDetailState::new();
    assert!(!lib.is_selected("/x"));
    lib.selected_item = Some(Arc::new(MediaItem {
        path: "/x".to_string(),
        name: "x".to_string(),
        media_type: MediaType::Image,
        copyright: String::new(),
        artist: String::new(),
        characters: Vec::new(),
        tags: Vec::new(),
        modified: 0,
    }));
    lib.selected_path = "/x".to_string();
    assert!(lib.is_selected("/x"));
    assert!(!lib.is_selected("/X"));
    lib.reset_async();
    assert!(lib.selected_path.is_empty());
    assert!(lib.is_selected("/x"));

    let mut st = StagingDetailState::new();
    assert!(!st.is_selected("/s"));
    st.selected_item = Some(Arc::new(StagingItem {
        path: "/s".to_string(),
        name: "s".to_string(),
        media_type: MediaType::Video,
        modified: 0,
    }));
    st.selected_path = "/s".to_string();
    assert!(st.is_selected("/s"));
    st.reset_async();
    assert!(st.selected_path.is_empty());
}

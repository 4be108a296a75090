use nexa::modal::{add_chip, can_add_chip, chip_frame, filter_suggestions, pick_chip, remove_chip, visible_suggestions, MediaModalState};
use nexa::models::{AutocompleteData, MediaItem, MediaModalMode, MediaType, StagingItem};
use std::sync::Arc;

fn s(v: &[&str]) -> Vec<String> {
    v.iter().map(|x| x.to_string()).collect()
}

fn lib_item() -> Arc<MediaItem> {
    Arc::new(MediaItem {
        path: "/lib/Studio/Painter/a.png".to_string(),
        name: "a.png".to_string(),
        media_type: MediaType::Image,
        copyright: "Studio".to_string(),
        artist: "Painter".to_string(),
        characters: s(&["Ann"]),
        tags: s(&["red", "blue"]),
        modified: 7,
    })
}

fn staging_item(path: &str) -> Arc<StagingItem> {
    Arc::new(StagingItem {
        path: path.to_string(),
        name: path.rsplit('/').next().unwrap().to_string(),
        media_type: MediaType::Video,
        modified: 1,
    })
}

fn completions() -> AutocompleteData {
    AutocompleteData {
        copyrights: s(&["Studio", "Other"]),
        artists: s(&["Painter"]),
        characters: s(&["Ann", "Bo"]),
        tags: s(&["red"]),
    }
}

#[test]
fn default_dialog_is_closed_and_blank() {
    let st = MediaModalState::default();
    assert!(!st.is_open());
    assert!(!st.is_valid());
    assert!(st.copyright.is_empty() && st.characters.is_empty() && st.error.is_none());
}

#[test]
fn edit_fills_fields_from_the_item() {
    let mut st = MediaModalState::default();
    st.error = Some("old".to_string());
    st.chars_input = "typed".to_string();
    st.open_edit(lib_item(), &completions());
    assert!(st.is_open());
    assert!(matches!(&st.mode, Some(MediaModalMode::Edit(it)) if it.path == "/lib/Studio/Painter/a.png"));
    assert_eq!(st.copyright, "Studio");
    assert_eq!(st.artist, "Painter");
    assert_eq!(st.characters, s(&["Ann"]));
    assert_eq!(st.tags, s(&["red", "blue"]));
    assert_eq!(st.copyright_suggestions, s(&["Studio", "Other"]));
    assert_eq!(st.char_suggestions, s(&["Ann", "Bo"]));
    assert!(st.chars_input.is_empty());
    assert!(st.error.is_none());
    assert!(st.is_valid());
}

#[test]
fn distribute_starts_empty_and_invalid() {
    let mut st = MediaModalState::default();
    st.copyright = "left".to_string();
    st.open_distribute(staging_item("/s/clip.mp4"), &completions());
    assert!(st.is_open());
    assert!(st.copyright.is_empty() && st.artist.is_empty());
    assert!(!st.is_valid());
    assert_eq!(st.tag_suggestions, s(&["red"]));
}

#[test]
fn next_distribution_keeps_entered_values() {
    let mut st = MediaModalState::default();
    st.open_distribute(staging_item("/s/one.mp4"), &completions());
    st.copyright = "C".to_string();
    st.artist = "A".to_string();
    st.tags = s(&["t"]);
    st.video_title = "Title".to_string();
    st.open_next_distribute(staging_item("/s/two.mp4"), &completions());
    assert!(matches!(&st.mode, Some(MediaModalMode::Distribute(it)) if it.path == "/s/two.mp4"));
    assert_eq!(st.copyright, "C");
    assert_eq!(st.artist, "A");
    assert_eq!(st.tags, s(&["t"]));
    assert!(st.video_title.is_empty());
}

#[test]
fn validity_needs_both_fields_after_trimming() {
    let mut st = MediaModalState::default();
    st.copyright = "  ".to_string();
    st.artist = "A".to_string();
    assert!(!st.is_valid());
    st.copyright = " C ".to_string();
    assert!(st.is_valid());
    st.artist = "\u{3000}".to_string();
    assert!(!st.is_valid());
}

#[test]
fn close_clears_everything() {
    let mut st = MediaModalState::default();
    st.open_edit(lib_item(), &completions());
    st.close();
    assert!(!st.is_open());
    assert!(st.copyright.is_empty() && st.tags.is_empty() && st.copyright_suggestions.is_empty());
}

#[test]
fn suggestions_contain_the_query() {
    let list = s(&["Alpha", "beta", "ALPHABET", "gamma", "Kalb"]);
    assert_eq!(filter_suggestions(&list, " al"), s(&["Alpha", "ALPHABET", "Kalb"]));
    assert_eq!(filter_suggestions(&list, "   "), Vec::<String>::new());
    assert_eq!(filter_suggestions(&list, "zz"), Vec::<String>::new());
}

#[test]
fn at_most_eight_suggestions() {
    let list: Vec<String> = (0..12).map(|i| format!("tag{i}")).collect();
    let got = filter_suggestions(&list, "TAG");
    assert_eq!(got, list[..8].to_vec());
}

#[test]
fn dropdown_hides_chosen_values() {
    let sugg = s(&["a", "b", "c", "b"]);
    assert_eq!(visible_suggestions(&sugg, &s(&["b"])), vec![0, 2]);
    assert_eq!(visible_suggestions(&sugg, &[]), vec![0, 1, 2, 3]);
    let many: Vec<String> = (0..12).map(|i| format!("v{i}")).collect();
    assert_eq!(visible_suggestions(&many, &s(&["v1"])), vec![0, 2, 3, 4, 5, 6, 7, 8]);
}

#[test]
fn chips_are_added_trimmed_and_once() {
    let mut items = s(&["x"]);
    let mut input = "  y ".to_string();
    let mut popup = true;
    assert!(can_add_chip(&items, &input));
    assert!(add_chip(&mut items, &mut input, &mut popup));
    assert_eq!(items, s(&["x", "y"]));
    assert!(input.is_empty());
    assert!(!popup);

    let mut input = " x ".to_string();
    let mut popup = true;
    assert!(!add_chip(&mut items, &mut input, &mut popup));
    assert_eq!(items, s(&["x", "y"]));
    assert_eq!(input, " x ");
    assert!(popup);

    let mut blank = "   ".to_string();
    assert!(!can_add_chip(&items, &blank));
    assert!(!add_chip(&mut items, &mut blank, &mut popup));
}

#[test]
fn picking_and_removing_chips() {
    let mut items = s(&["a"]);
    let mut input = "b".to_string();
    let mut popup = true;
    let sugg = s(&["a", "bee"]);
    pick_chip(&mut items, &mut input, &mut popup, &sugg, 1);
    assert_eq!(items, s(&["a", "bee"]));
    assert!(input.is_empty());
    assert!(!popup);
    remove_chip(&mut items, 0);
    assert_eq!(items, s(&["bee"]));
}

#[test]
fn one_frame_of_the_chip_section() {
    let sugg = s(&["x", "y", "z"]);
    // Remove "a", add the typed " b ", pick "y".
    let mut items = s(&["a", "x"]);
    let mut input = " b ".to_string();
    let mut popup = true;
    chip_frame(&mut items, &mut input, &mut popup, &sugg, Some(0), true, Some(1));
    assert_eq!(items, s(&["x", "b", "y"]));
    assert!(input.is_empty());
    assert!(!popup);
    // A suggestion already chosen is not added twice; nothing typed is confirmed.
    let mut input = "q".to_string();
    let mut popup = true;
    chip_frame(&mut items, &mut input, &mut popup, &sugg, None, false, Some(0));
    assert_eq!(items, s(&["x", "b", "y"]));
    assert_eq!(input, "q");
    assert!(popup);
    // Typed text that is a chip already is not added.
    let mut input = "x".to_string();
    chip_frame(&mut items, &mut input, &mut popup, &sugg, None, true, None);
    assert_eq!(items, s(&["x", "b", "y"]));
    assert_eq!(input, "x");
}

use nexa::modal::MediaModalState;
use nexa::models::{AutocompleteData, MediaItem, MediaModalMode, MediaType, ResolvedName, StagingItem};
use nexa::workflow::{
    advance_queue, apply_edit, destination_parts, dialog_values, distribute_name, distributed_item,
    location_changed, moved_name, remove_staging_path, scan_reaction, search_step,
    should_refresh_autocomplete, start_queue, DialogValues, ScanReaction, SearchStep,
};
use std::sync::Arc;

fn s(v: &[&str]) -> Vec<String> {
    v.iter().map(|x| x.to_string()).collect()
}

fn staged(path: &str, t: MediaType) -> Arc<StagingItem> {
    Arc::new(StagingItem {
        path: path.to_string(),
        name: path.rsplit('/').next().unwrap().to_string(),
        media_type: t,
        modified: 3,
    })
}

fn lib_item(path: &str) -> Arc<MediaItem> {
    Arc::new(MediaItem {
        path: path.to_string(),
        name: path.rsplit('/').next().unwrap().to_string(),
        media_type: MediaType::Image,
        copyright: "Old".to_string(),
        artist: "Hand".to_string(),
        characters: s(&["Ann"]),
        tags: s(&["t"]),
        modified: 100,
    })
}

fn values(copyright: &str, artist: &str, chars: &[&str], title: &str) -> DialogValues {
    DialogValues {
        copyright: copyright.to_string(),
        artist: artist.to_string(),
        characters: s(chars),
        tags: s(&["tag"]),
        video_title: title.to_string(),
    }
}

#[test]
fn dialog_values_are_trimmed() {
    let mut st = MediaModalState::default();
    st.copyright = " C ".to_string();
    st.artist = "A\t".to_string();
    st.video_title = "  T  ".to_string();
    st.characters = s(&[" x "]);
    st.tags = s(&["t"]);
    let v = dialog_values(&st);
    assert_eq!(v.copyright, "C");
    assert_eq!(v.artist, "A");
    assert_eq!(v.video_title, "T");
    assert_eq!(v.characters, s(&[" x "]));
    assert_eq!(v.tags, s(&["t"]));
}

#[test]
fn destination_folders() {
    assert_eq!(destination_parts("C", "A", MediaType::Image, "Videos"), s(&["C", "A"]));
    assert_eq!(destination_parts("C", "A", MediaType::Video, "Videos"), s(&["C", "A", "Videos"]));
    assert_eq!(destination_parts("C", "A", MediaType::Video, ""), s(&["C", "A"]));
}

#[test]
fn distributed_video_name() {
    let item = staged("/s/raw.MKV", MediaType::Video);
    let v = values("Studio", "Studio", &["Ann"], "Trailer");
    assert_eq!(
        distribute_name(&item, &v, ", ", &[]),
        Some(ResolvedName::Free("Ann - Trailer [Studio].mkv".to_string()))
    );
    let files = s(&["ann - trailer [studio].MP4", "x.png"]);
    assert_eq!(
        distribute_name(&item, &v, ", ", &files),
        Some(ResolvedName::RenameExisting {
            existing_old: "ann - trailer [studio].MP4".to_string(),
            existing_new: "Ann - Trailer [Studio] - 1.mp4".to_string(),
            new_file: "Ann - Trailer [Studio] - 2.mkv".to_string(),
        })
    );
}

#[test]
fn distributed_image_name() {
    let item = staged("/s/img001.png", MediaType::Image);
    let v = values("C", "Artist", &["Ann", "Bo"], "");
    let files = s(&["Ann & Bo [Artist].png", "Ann & Bo [Artist] - 1.jpg"]);
    assert_eq!(
        distribute_name(&item, &v, " & ", &files),
        Some(ResolvedName::NextSuffix("Ann & Bo [Artist] - 2.png".to_string()))
    );
    let bare = values("C", "", &[], "");
    assert_eq!(
        distribute_name(&item, &bare, ", ", &[]),
        Some(ResolvedName::Free("img001.png".to_string()))
    );
}

#[test]
fn moved_file_keeps_its_stem() {
    assert_eq!(moved_name("/lib/A/B/pic - 3.JPG", &[]), Some(ResolvedName::Free("pic - 3.jpg".to_string())));
    assert_eq!(
        moved_name("/lib/A/B/pic.png", &s(&["PIC.gif"])),
        Some(ResolvedName::RenameExisting {
            existing_old: "PIC.gif".to_string(),
            existing_new: "pic - 1.gif".to_string(),
            new_file: "pic - 2.png".to_string(),
        })
    );
    assert_eq!(moved_name("/lib/A/B/noext", &[]), Some(ResolvedName::Free("noext".to_string())));
}

#[test]
fn edits_move_only_on_new_folder_values() {
    let it = lib_item("/l/Old/Hand/a.png");
    assert!(!location_changed(&it, &values("Old", "Hand", &[], "")));
    assert!(location_changed(&it, &values("New", "Hand", &[], "")));
    assert!(location_changed(&it, &values("Old", "hand", &[], "")));
}

#[test]
fn the_distributed_item() {
    let st = staged("/s/a.mp4", MediaType::Video);
    let v = values("C", "A", &["Ann"], "T");
    let it = distributed_item(&st, v, "/l/C/A/Ann - T [A].mp4".to_string(), "Ann - T [A].mp4".to_string(), 9);
    assert_eq!(it.path, "/l/C/A/Ann - T [A].mp4");
    assert_eq!(it.name, "Ann - T [A].mp4");
    assert_eq!(it.media_type, MediaType::Video);
    assert_eq!((it.copyright.as_str(), it.artist.as_str()), ("C", "A"));
    assert_eq!(it.characters, s(&["Ann"]));
    assert_eq!(it.tags, s(&["tag"]));
    assert_eq!(it.modified, 9);
}

#[test]
fn saved_edits_replace_the_shown_item() {
    let mut items = vec![lib_item("/l/Old/Hand/a.png"), lib_item("/l/Old/Hand/b.png")];
    let v = values("New", "Hand", &["Bo"], "");
    apply_edit(&mut items, "/l/Old/Hand/b.png", "/l/New/Hand/b.png", "b.png", &v, None);
    assert_eq!(items[1].path, "/l/New/Hand/b.png");
    assert_eq!(items[1].copyright, "New");
    assert_eq!(items[1].characters, s(&["Bo"]));
    assert_eq!(items[1].tags, s(&["tag"]));
    assert_eq!(items[1].modified, 100);
    assert_eq!(items[0].path, "/l/Old/Hand/a.png");
    apply_edit(&mut items, "/l/Old/Hand/a.png", "/l/New/Hand/a - 2.png", "a - 2.png", &v, Some(555));
    assert_eq!(items[0].name, "a - 2.png");
    assert_eq!(items[0].modified, 555);
    apply_edit(&mut items, "/nowhere", "/x", "x", &v, Some(1));
    assert_eq!(items[0].path, "/l/New/Hand/a - 2.png");
    assert_eq!(items[1].path, "/l/New/Hand/b.png");
}

#[test]
fn distributed_files_leave_the_staging_list() {
    let mut list = vec![staged("/s/a.png", MediaType::Image), staged("/s/b.png", MediaType::Image), staged("/s/a.png", MediaType::Image)];
    remove_staging_path(&mut list, "/s/a.png");
    assert_eq!(list.len(), 1);
    assert_eq!(list[0].path, "/s/b.png");
}

#[test]
fn a_queue_of_distributions() {
    let ac = AutocompleteData::empty();
    let mut st = MediaModalState::default();
    let mut queue = Vec::new();
    start_queue(&mut st, &mut queue, Vec::new(), &ac);
    assert!(!st.is_open());
    assert!(queue.is_empty());

    let items = vec![staged("/s/1.png", MediaType::Image), staged("/s/2.png", MediaType::Image), staged("/s/3.png", MediaType::Image)];
    start_queue(&mut st, &mut queue, items, &ac);
    assert!(matches!(&st.mode, Some(MediaModalMode::Distribute(it)) if it.path == "/s/1.png"));
    assert_eq!(queue.len(), 2);

    st.copyright = "C".to_string();
    st.artist = "A".to_string();
    advance_queue(&mut st, &mut queue, &ac);
    assert!(matches!(&st.mode, Some(MediaModalMode::Distribute(it)) if it.path == "/s/2.png"));
    assert_eq!((st.copyright.as_str(), st.artist.as_str()), ("C", "A"));
    assert_eq!(queue.len(), 1);
    advance_queue(&mut st, &mut queue, &ac);
    assert!(matches!(&st.mode, Some(MediaModalMode::Distribute(it)) if it.path == "/s/3.png"));
    advance_queue(&mut st, &mut queue, &ac);
    assert!(!st.is_open());
    assert!(st.copyright.is_empty());
}

#[test]
fn search_box_debounce() {
    assert_eq!(search_step(" cat ", "cat", 0, 300), SearchStep::Unchanged);
    assert_eq!(search_step("cats", "cat", 300, 300), SearchStep::Send);
    assert_eq!(search_step("cats", "cat", 100, 300), SearchStep::WaitNanos(200));
    assert_eq!(search_step("", "cat", 0, 0), SearchStep::Send);
}

#[test]
fn completion_refresh_and_scan_reactions() {
    assert!(should_refresh_autocomplete(true, false, 10, 10));
    assert!(!should_refresh_autocomplete(true, true, 10, 10));
    assert!(!should_refresh_autocomplete(false, false, 10, 10));
    assert!(!should_refresh_autocomplete(true, false, 9, 10));
    assert_eq!(
        scan_reaction(true, false, false),
        ScanReaction { refresh_library: true, refresh_autocomplete_now: true, refresh_staging: false, repaint: true }
    );
    assert_eq!(
        scan_reaction(false, true, false),
        ScanReaction { refresh_library: false, refresh_autocomplete_now: false, refresh_staging: true, repaint: true }
    );
    assert_eq!(
        scan_reaction(false, false, true),
        ScanReaction { refresh_library: true, refresh_autocomplete_now: false, refresh_staging: false, repaint: true }
    );
    assert_eq!(
        scan_reaction(false, false, false),
        ScanReaction { refresh_library: false, refresh_autocomplete_now: false, refresh_staging: false, repaint: false }
    );
}

use nexa::file_helpers::{
    build_filename_stem, find_suffix_group, make_filename, numbered_stem, parse_suffix_number,
    resolve_conflict, sanitize_filename, try_resolve_conflict,
};
use nexa::models::{MediaItem, MediaType, ResolvedName};
use std::sync::Arc;

fn s(v: &[&str]) -> Vec<String> {
    v.iter().map(|x| x.to_string()).collect()
}

fn item(path: &str) -> Arc<MediaItem> {
    let name = path.rsplit(['/', '\\']).next().unwrap().to_string();
    Arc::new(MediaItem {
        path: path.to_string(),
        name,
        media_type: MediaType::Image,
        copyright: "C".to_string(),
        artist: "A".to_string(),
        characters: Vec::new(),
        tags: Vec::new(),
        modified: 0,
    })
}

#[test]
fn sanitize_replaces_forbidden_and_trims() {
    assert_eq!(sanitize_filename("  a/b\\c:d*e?f\"g<h>i|j  "), "a_b_c_d_e_f_g_h_i_j");
    assert_eq!(sanitize_filename("\u{3000}Title\u{a0}"), "Title");
    assert_eq!(sanitize_filename("   "), "");
}

#[test]
fn make_filename_with_and_without_extension() {
    assert_eq!(make_filename("clip", "mp4"), "clip.mp4");
    assert_eq!(make_filename("clip", ""), "clip");
}

#[test]
fn build_stem_for_image() {
    let chars = s(&["Alice", "Bob"]);
    assert_eq!(
        build_filename_stem(&MediaType::Image, &chars, "Artist", "", "C:\\staging\\img001.png", " x "),
        "Alice x Bob [Artist]"
    );
    assert_eq!(
        build_filename_stem(&MediaType::Image, &chars, "", "", "/staging/img001.png", " x "),
        "Alice x Bob"
    );
    assert_eq!(
        build_filename_stem(&MediaType::Image, &[], "Artist", "", "/staging/img001.png", " x "),
        "img001"
    );
}

#[test]
fn build_stem_for_video() {
    let chars = s(&["Alice"]);
    assert_eq!(
        build_filename_stem(&MediaType::Video, &chars, "Studio", " My: Title? ", "/in/raw.mkv", ", "),
        "Alice - My_ Title_ [Studio]"
    );
    assert_eq!(
        build_filename_stem(&MediaType::Video, &[], "", "", "/in/raw.video.mkv", ", "),
        "raw.video"
    );
    assert_eq!(
        build_filename_stem(&MediaType::Video, &[], "Studio", "Trailer", "/in/raw.mkv", ", "),
        "Trailer [Studio]"
    );
}

#[test]
fn parse_suffix_number_cases() {
    assert_eq!(parse_suffix_number("image - 3"), Some(("image".to_string(), 3)));
    assert_eq!(parse_suffix_number("a - b - 12"), Some(("a - b".to_string(), 12)));
    assert_eq!(parse_suffix_number("image - 007"), Some(("image".to_string(), 7)));
    assert_eq!(parse_suffix_number("image - +4"), Some(("image".to_string(), 4)));
    assert_eq!(parse_suffix_number("image - 0"), None);
    assert_eq!(parse_suffix_number("image - x"), None);
    assert_eq!(parse_suffix_number("image - "), None);
    assert_eq!(parse_suffix_number("image - 4294967296"), None);
    assert_eq!(parse_suffix_number("image-3"), None);
    assert_eq!(parse_suffix_number("image"), None);
}

#[test]
fn numbering_reads_back() {
    for n in [1u64, 2, 10, 4294967295] {
        let st = numbered_stem("photo - 2", n);
        assert_eq!(parse_suffix_number(&st), Some(("photo - 2".to_string(), n as u32)));
    }
}

#[test]
fn resolve_free_name() {
    let files = s(&["other.png", "b.jpg"]);
    assert_eq!(resolve_conflict(&files, "cat", "png"), ResolvedName::Free("cat.png".to_string()));
}

#[test]
fn resolve_renames_existing_file() {
    let files = s(&["Cat.JPG", "dog.png"]);
    assert_eq!(
        resolve_conflict(&files, "cat", "png"),
        ResolvedName::RenameExisting {
            existing_old: "Cat.JPG".to_string(),
            existing_new: "cat - 1.jpg".to_string(),
            new_file: "cat - 2.png".to_string(),
        }
    );
}

#[test]
fn resolve_next_suffix() {
    let files = s(&["cat.png", "cat - 1.png", "cat - 2.png", "CAT - 4.png"]);
    assert_eq!(resolve_conflict(&files, "cat", "png"), ResolvedName::NextSuffix("cat - 3.png".to_string()));
    let only_one = s(&["cat - 1.png"]);
    assert_eq!(resolve_conflict(&only_one, "cat", "png"), ResolvedName::NextSuffix("cat - 2.png".to_string()));
    assert_eq!(
        try_resolve_conflict(&only_one, "cat", ""),
        Some(ResolvedName::NextSuffix("cat - 2".to_string()))
    );
}

#[test]
fn suffix_group_sorted_by_number() {
    let all = vec![
        item("/lib/c/a/pic - 2.png"),
        item("/lib/c/a/other.png"),
        item("/lib/c/a/pic.PNG"),
        item("/lib/c/a/Pic - 1.png"),
        item("/lib/c/b/pic - 3.png"),
        item("/lib/c/a/pic - 3.jpg"),
    ];
    let group = find_suffix_group(&all[0], &all);
    let paths: Vec<&str> = group.iter().map(|i| i.path.as_str()).collect();
    assert_eq!(paths, vec!["/lib/c/a/pic.PNG", "/lib/c/a/Pic - 1.png", "/lib/c/a/pic - 2.png"]);
}

#[test]
fn suffix_group_of_single_file_is_empty() {
    let all = vec![item("/lib/c/a/pic.png"), item("/lib/c/a/other.png")];
    assert!(find_suffix_group(&all[0], &all).is_empty());
}

#[test]
fn renamed_existing_never_lands_on_a_taken_name() {
    let files = s(&["img.png", "img - 2.png"]);
    assert_eq!(
        resolve_conflict(&files, "img", "png"),
        ResolvedName::RenameExisting {
            existing_old: "img.png".to_string(),
            existing_new: "img - 1.png".to_string(),
            new_file: "img - 3.png".to_string(),
        }
    );
}

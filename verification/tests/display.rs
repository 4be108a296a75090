use nexa::display::{build_group_set, bytes_human, depth_to_label, hover_meta};
use nexa::models::{MediaItem, MediaType};
use std::collections::HashSet;
use std::sync::Arc;

fn item(path: &str, characters: &[&str]) -> MediaItem {
    MediaItem {
        path: path.to_string(),
        name: path.rsplit('/').next().unwrap().to_string(),
        media_type: MediaType::Image,
        copyright: "Studio".to_string(),
        artist: "Painter".to_string(),
        characters: characters.iter().map(|c| c.to_string()).collect(),
        tags: Vec::new(),
        modified: 0,
    }
}

/// The byte count as the download panel formats it with floating point.
fn float_formatted(b: u64) -> String {
    const MB: u64 = 1024 * 1024;
    const KB: u64 = 1024;
    if b >= MB {
        format!("{:.1} MB", b as f64 / MB as f64)
    } else if b >= KB {
        format!("{:.0} KB", b as f64 / KB as f64)
    } else {
        format!("{b} B")
    }
}

#[test]
fn hover_line_without_characters() {
    assert_eq!(hover_meta(&item("/l/x.png", &[])), "Studio \u{b7} Painter");
}

#[test]
fn hover_line_with_few_characters() {
    assert_eq!(hover_meta(&item("/l/x.png", &["Ann"])), "Ann");
    assert_eq!(hover_meta(&item("/l/x.png", &["Ann", "Bo", "Cy"])), "Ann \u{b7} Bo \u{b7} Cy");
}

#[test]
fn hover_line_with_many_characters() {
    assert_eq!(hover_meta(&item("/l/x.png", &["a", "b", "c", "d", "e"])), "a \u{b7} b \u{b7} c +2");
    let many: Vec<String> = (0..15).map(|i| format!("c{i}")).collect();
    let refs: Vec<&str> = many.iter().map(|s| s.as_str()).collect();
    assert_eq!(hover_meta(&item("/l/x.png", &refs)), "c0 \u{b7} c1 \u{b7} c2 +12");
}

#[test]
fn depth_labels() {
    assert_eq!(depth_to_label(0), "Level 1");
    assert_eq!(depth_to_label(3), "Level 4");
    assert_eq!(depth_to_label(5), "Level 6");
    assert_eq!(depth_to_label(6), "Level 1");
    assert_eq!(depth_to_label(usize::MAX), "Level 1");
}

#[test]
fn byte_counts_exact_values() {
    assert_eq!(bytes_human(0), "0 B");
    assert_eq!(bytes_human(1023), "1023 B");
    assert_eq!(bytes_human(1024), "1 KB");
    assert_eq!(bytes_human(1048576), "1.0 MB");
    assert_eq!(bytes_human(5 * 1048576 + 1048576 / 2), "5.5 MB");
    assert_eq!(bytes_human(734003200), "700.0 MB");
}

#[test]
fn byte_counts_match_float_formatting_on_ties() {
    for b in [1536u64, 2560, 3584, 1310720, 3932160, 262144 * 7, 262144 * 9, 512 + 1024 * 9] {
        assert_eq!(bytes_human(b), float_formatted(b), "b = {b}");
    }
}

#[test]
fn byte_counts_match_float_formatting_on_ranges() {
    let mut b: u64 = 0;
    while b < 3_000_000 {
        assert_eq!(bytes_human(b), float_formatted(b), "b = {b}");
        b += 97;
    }
    let mut b: u64 = 1 << 40;
    while b < (1 << 40) + 50_000_000 {
        assert_eq!(bytes_human(b), float_formatted(b), "b = {b}");
        b += 104_857;
    }
}

#[test]
fn numbered_cards_form_groups() {
    let items = vec![
        Arc::new(item("/l/c/a/pic.png", &[])),
        Arc::new(item("/l/c/a/pic - 1.png", &[])),
        Arc::new(item("/l/c/a/other.png", &[])),
        Arc::new(item("/l/c/b/pic.png", &[])),
        Arc::new(item("/l/c/a/PIC - 2.jpg", &[])),
        Arc::new(item("/l/C/B/Other - 3.gif", &[])),
    ];
    let expected: HashSet<usize> = [0, 1, 4].into_iter().collect();
    assert_eq!(build_group_set(&items), expected);
}

#[test]
fn folder_case_is_ignored_in_groups() {
    let items = vec![Arc::new(item("/l/C/A/x.png", &[])), Arc::new(item("/l/c/a/X - 2.png", &[]))];
    let expected: HashSet<usize> = [0, 1].into_iter().collect();
    assert_eq!(build_group_set(&items), expected);
    assert!(build_group_set(&[]).is_empty());
}

#[test]
fn reorder_groups_are_marked_as_grouped() {
    let items = vec![
        Arc::new(item("/l/c/a/pic.png", &[])),
        Arc::new(item("/l/c/a/pic - 1.png", &[])),
        Arc::new(item("/l/c/a/pic - 1.jpg", &[])),
        Arc::new(item("/l/c/a/solo.png", &[])),
    ];
    let set = build_group_set(&items);
    for (i, it) in items.iter().enumerate() {
        if nexa::file_helpers::find_suffix_group(it, &items).len() >= 2 {
            assert!(set.contains(&i), "index {i}");
        }
    }
    assert!(set.contains(&2));
    assert!(!set.contains(&3));
}

use nexa::file_helpers::{base_file_name, collapse_to_base, reindex_start, reindex_step, ReindexAction};
use nexa::models::{FieldFilter, MediaItem, MediaType};
use nexa::selection::{change_field_filter, display_index_entries, forget_deleted, selected_items, Selection};
use nexa::workflow::library_root;
use std::sync::Arc;

fn item(path: &str) -> Arc<MediaItem> {
    Arc::new(MediaItem {
        path: path.to_string(),
        name: path.rsplit('/').next().unwrap().to_string(),
        media_type: MediaType::Image,
        copyright: "c".to_string(),
        artist: "a".to_string(),
        characters: Vec::new(),
        tags: Vec::new(),
        modified: 0,
    })
}

#[test]
fn ctrl_click_toggles_and_sets_the_anchor() {
    let mut sel = Selection::new();
    assert_eq!(sel.len(), 0);
    sel.toggle("/l/a.png".to_string());
    assert!(sel.contains("/l/a.png"));
    assert_eq!(sel.anchor(), Some("/l/a.png".to_string()));
    sel.toggle("/l/b.png".to_string());
    assert_eq!(sel.len(), 2);
    assert_eq!(sel.anchor(), Some("/l/b.png".to_string()));
    sel.toggle("/l/a.png".to_string());
    assert!(!sel.contains("/l/a.png"));
    assert_eq!(sel.len(), 1);
    assert_eq!(sel.anchor(), Some("/l/b.png".to_string()));
    sel.insert("/l/b.png".to_string());
    sel.insert("/l/c.png".to_string());
    assert_eq!(sel.len(), 2);
    sel.clear();
    assert_eq!(sel.len(), 0);
    assert_eq!(sel.anchor(), None);
}

#[test]
fn a_filter_change_clears_the_selection() {
    let mut sel = Selection::new();
    sel.toggle("/l/a.png".to_string());
    let f = FieldFilter::Artist("x".to_string());
    let r = change_field_filter(None, f.clone(), &mut sel);
    assert_eq!(r, Some(f.clone()));
    assert_eq!(sel.len(), 0);
    assert_eq!(sel.anchor(), None);
    assert_eq!(change_field_filter(r, f, &mut sel), None);
}

#[test]
fn deleted_files_leave_view_and_selection() {
    let mut shown = vec![item("/l/a.png"), item("/l/b.png"), item("/l/c.png")];
    let mut sel = Selection::new();
    sel.toggle("/l/a.png".to_string());
    sel.toggle("/l/c.png".to_string());
    forget_deleted(&mut shown, &mut sel, "/l/a.png");
    assert_eq!(shown.iter().map(|i| i.path.as_str()).collect::<Vec<_>>(), vec!["/l/b.png", "/l/c.png"]);
    assert!(!sel.contains("/l/a.png"));
    assert!(sel.contains("/l/c.png"));
    assert_eq!(sel.anchor(), Some("/l/c.png".to_string()));
}

#[test]
fn index_entries_give_positions() {
    let shown = vec![item("/l/a.png"), item("/l/b.png")];
    let e = display_index_entries(&shown);
    assert_eq!(e, vec![("/l/a.png".to_string(), 0), ("/l/b.png".to_string(), 1)]);
    let map: std::collections::HashMap<String, usize> = e.into_iter().collect();
    assert_eq!(map["/l/b.png"], 1);
}

#[test]
fn library_root_and_collapse() {
    assert_eq!(library_root(&Some("/lib".to_string())), Ok("/lib".to_string()));
    assert_eq!(library_root(&None), Err("Library path is not configured.".to_string()));
    assert!(collapse_to_base(true, false, false));
    assert!(!collapse_to_base(true, true, false));
    assert!(!collapse_to_base(true, false, true));
    assert!(!collapse_to_base(false, false, false));
}

#[test]
fn bulk_delete_asks_for_the_selected_items_in_order() {
    let shown = vec![item("/l/a.png"), item("/l/b.png"), item("/l/c.png")];
    let mut sel = Selection::new();
    sel.toggle("/l/c.png".to_string());
    sel.toggle("/l/a.png".to_string());
    sel.toggle("/l/zz.png".to_string());
    let got = selected_items(&shown, &sel);
    assert_eq!(got.iter().map(|i| i.path.as_str()).collect::<Vec<_>>(), vec!["/l/a.png", "/l/c.png"]);
}

#[test]
fn renumbering_steps() {
    let st = reindex_start("/d/pic - 2.png").unwrap();
    match reindex_step(&st, 3, true) {
        ReindexAction::Rename { from_name, to_name, next } => {
            assert_eq!(from_name, "pic - 3.png");
            assert_eq!(to_name, "pic - 2.png");
            assert_eq!(next, 4);
        }
        ReindexAction::Finish => panic!("expected a rename"),
    }
    assert!(matches!(reindex_step(&st, 4, false), ReindexAction::Finish));
    assert_eq!(base_file_name("pic", "png"), "pic.png");
}

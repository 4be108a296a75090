use nexa::file_helpers::{
    eq_ignore_ascii_case_chars, lowercase_extension, numbered_file_name, plan_group_reorder,
    record_rename, reindex_start, reorder_group_of, reorder_target_name, sanitize_filename,
};

fn s(v: &[&str]) -> Vec<String> {
    v.iter().map(|x| x.to_string()).collect()
}

fn chars(x: &str) -> Vec<char> {
    x.chars().collect()
}

#[test]
fn renumbering_starts_after_the_deleted_file() {
    let st = reindex_start("/lib/c/a/pic - 2.PNG").unwrap();
    assert_eq!(st.dir, "/lib/c/a");
    assert_eq!(st.base_stem, "pic");
    assert_eq!(st.ext, "png");
    assert_eq!(st.first, 3);
    assert!(reindex_start("/lib/c/a/pic.png").is_none());
    assert!(reindex_start("/lib/c/a/pic - 2").is_none());
    assert!(reindex_start("/lib/c/a/pic - 0.png").is_none());
}

#[test]
fn numbered_names() {
    assert_eq!(numbered_file_name("pic", 3, "png"), "pic - 3.png");
    assert_eq!(numbered_file_name("a - b", 10, "jpg"), "a - b - 10.jpg");
}

#[test]
fn rename_records_merge_chains() {
    let mut r: Vec<(String, String, String)> = Vec::new();
    record_rename(&mut r, "/d/p - 3.png".into(), "/d/p - 2.png".into(), "p - 2.png".into());
    record_rename(&mut r, "/d/p - 4.png".into(), "/d/p - 3.png".into(), "p - 3.png".into());
    assert_eq!(r.len(), 2);
    // The file now at "p - 3" moves on to the base name: its record is merged.
    record_rename(&mut r, "/d/p - 3.png".into(), "/d/p.png".into(), "p.png".into());
    assert_eq!(
        r,
        vec![
            ("/d/p - 3.png".to_string(), "/d/p - 2.png".to_string(), "p - 2.png".to_string()),
            ("/d/p - 4.png".to_string(), "/d/p.png".to_string(), "p.png".to_string()),
        ]
    );
}

#[test]
fn ascii_case_comparison() {
    assert!(eq_ignore_ascii_case_chars(&chars("Pic - 1.PNG"), &chars("pic - 1.png")));
    assert!(!eq_ignore_ascii_case_chars(&chars("Äpic"), &chars("äpic")));
    assert!(!eq_ignore_ascii_case_chars(&chars("pic"), &chars("pics")));
}

#[test]
fn reorder_targets() {
    assert_eq!(reorder_target_name(1, 0, "pic", "png"), "pic.png");
    assert_eq!(reorder_target_name(3, 0, "pic", "png"), "pic - 1.png");
    assert_eq!(reorder_target_name(3, 2, "pic", "png"), "pic - 3.png");
}

#[test]
fn reorder_plan_skips_files_in_place() {
    let paths = s(&["/d/pic - 2.png", "/d/PIC - 2.PNG", "/d/pic - 1.png"]);
    let moves = plan_group_reorder(&paths, "pic", "png", 77);
    let got: Vec<(usize, &str, &str)> =
        moves.iter().map(|m| (m.index, m.temp_name.as_str(), m.target.as_str())).collect();
    assert_eq!(
        got,
        vec![
            (0, "__nexa_ro_77_0.png", "pic - 1.png"),
            (2, "__nexa_ro_77_2.png", "pic - 3.png"),
        ]
    );
    assert!(plan_group_reorder(&[], "pic", "png", 1).is_empty());
    let single = plan_group_reorder(&s(&["/d/pic - 4.png"]), "pic", "png", 5);
    assert_eq!(single.len(), 1);
    assert_eq!(single[0].target, "pic.png");
}

#[test]
fn reorder_group_and_extension() {
    assert_eq!(
        reorder_group_of("/d/Pic - 3.JPG"),
        ("/d".to_string(), "Pic".to_string(), "jpg".to_string())
    );
    assert_eq!(reorder_group_of("/d/plain"), ("/d".to_string(), "plain".to_string(), String::new()));
    assert_eq!(lowercase_extension("/d/x.TaR.Gz"), "gz");
    assert_eq!(lowercase_extension("/d/.hidden"), "");
}

#[test]
fn sanitizing_twice_changes_nothing() {
    for x in ["  a/b  ", "x:y*z", "\u{3000} q ", "ok"] {
        let once = sanitize_filename(x);
        assert_eq!(sanitize_filename(&once), once);
    }
}

#[test]
fn roots_keep_their_separator() {
    assert_eq!(reorder_group_of("/pic - 2.png").0, "/");
    assert_eq!(reindex_start("C:\\pic - 2.png").unwrap().dir, "C:\\");
    assert_eq!(reindex_start("C:\\lib\\pic - 2.png").unwrap().dir, "C:\\lib");
    assert_eq!(reorder_group_of("pic.png").0, "");
}

#[test]
fn trailing_separators_and_dots_are_not_read() {
    assert_eq!(
        reorder_group_of("/d/pic - 2.png/"),
        ("/d".to_string(), "pic".to_string(), "png".to_string())
    );
    assert_eq!(reorder_group_of("/d/pic.png/.").0, "/d");
    assert_eq!(reorder_group_of("/d//pic.png").0, "/d");
    assert_eq!(reorder_group_of("/d/./pic.png").0, "/d");
    assert_eq!(lowercase_extension("/d/x.PNG//"), "png");
    assert_eq!(reindex_start("/d/pic - 2.png/").unwrap().dir, "/d");
}

use nexa::models::{FieldFilter, MediaItem, MediaType, SortOrder};
use nexa::natural::natural_cmp;
use nexa::sorting::{filter_active, filters_equal, sort_items, toggle_field_filter};
use std::cmp::Ordering;
use std::sync::Arc;

fn named(name: &str) -> Arc<MediaItem> {
    Arc::new(MediaItem {
        path: format!("/lib/c/a/{name}"),
        name: name.to_string(),
        media_type: MediaType::Image,
        copyright: "c".to_string(),
        artist: "a".to_string(),
        characters: Vec::new(),
        tags: Vec::new(),
        modified: 0,
    })
}

fn names(items: &[Arc<MediaItem>]) -> Vec<String> {
    items.iter().map(|i| i.name.clone()).collect()
}

#[test]
fn numbers_compare_by_value() {
    assert_eq!(natural_cmp("file2", "file10"), Ordering::Less);
    assert_eq!(natural_cmp("file10", "file2"), Ordering::Greater);
    assert_eq!(natural_cmp("pic - 9.png", "pic - 10.png"), Ordering::Less);
}

#[test]
fn case_is_ignored() {
    assert_eq!(natural_cmp("Image", "image"), Ordering::Equal);
    assert_eq!(natural_cmp("ÄPFEL", "äpfel"), Ordering::Equal);
    assert_eq!(natural_cmp("B", "a"), Ordering::Greater);
}

#[test]
fn leading_zeros_do_not_count() {
    assert_eq!(natural_cmp("img001", "img1"), Ordering::Equal);
    assert_eq!(natural_cmp("img007b", "img7a"), Ordering::Greater);
}

#[test]
fn prefixes_and_mixed_runs() {
    assert_eq!(natural_cmp("a", "ab"), Ordering::Less);
    assert_eq!(natural_cmp("b", "ab"), Ordering::Greater);
    assert_eq!(natural_cmp("", ""), Ordering::Equal);
    assert_eq!(natural_cmp("", "x"), Ordering::Less);
    assert_eq!(natural_cmp("10", "a"), Ordering::Less);
}

#[test]
fn oversized_number_counts_as_zero() {
    // A digit run beyond u64 is read as 0.
    assert_eq!(natural_cmp("x99999999999999999999", "x5"), Ordering::Less);
    assert_eq!(natural_cmp("x99999999999999999999", "x0"), Ordering::Equal);
}

#[test]
fn order_laws_hold_on_examples() {
    let words = ["a2", "A10", "b", "a02", "", "z9z", "a2b"];
    for x in words {
        assert_eq!(natural_cmp(x, x), Ordering::Equal);
        for y in words {
            assert_eq!(natural_cmp(x, y), natural_cmp(y, x).reverse());
            for z in words {
                if natural_cmp(x, y) != Ordering::Greater && natural_cmp(y, z) != Ordering::Greater {
                    assert_ne!(natural_cmp(x, z), Ordering::Greater);
                }
            }
        }
    }
}

#[test]
fn sort_by_name_ascending_and_descending() {
    let mut v = vec![named("img10.png"), named("IMG2.png"), named("img1.png"), named("b.png")];
    sort_items(&mut v, SortOrder::NameAsc);
    assert_eq!(names(&v), vec!["b.png", "img1.png", "IMG2.png", "img10.png"]);
    sort_items(&mut v, SortOrder::NameDesc);
    assert_eq!(names(&v), vec!["img10.png", "IMG2.png", "img1.png", "b.png"]);
}

#[test]
fn sort_by_date_keeps_query_order() {
    let mut v = vec![named("z.png"), named("a.png")];
    sort_items(&mut v, SortOrder::DateDesc);
    assert_eq!(names(&v), vec!["z.png", "a.png"]);
    sort_items(&mut v, SortOrder::DateAsc);
    assert_eq!(names(&v), vec!["z.png", "a.png"]);
}

#[test]
fn toggling_field_filters() {
    let artist = FieldFilter::Artist("x".to_string());
    assert_eq!(toggle_field_filter(None, artist.clone()), Some(artist.clone()));
    assert_eq!(toggle_field_filter(Some(artist.clone()), artist.clone()), None);
    let tag = FieldFilter::Tag("x".to_string());
    assert_eq!(toggle_field_filter(Some(artist.clone()), tag.clone()), Some(tag.clone()));
    assert!(filter_active(&Some(tag.clone()), &tag));
    assert!(!filter_active(&Some(tag.clone()), &artist));
    assert!(!filter_active(&None, &artist));
    assert!(filters_equal(&FieldFilter::Copyright("c".to_string()), &FieldFilter::Copyright("c".to_string())));
    assert!(!filters_equal(&FieldFilter::Copyright("c".to_string()), &FieldFilter::Copyright("C".to_string())));
}

#[test]
fn ascii_case_never_changes_the_order() {
    let pairs = [("File10.PNG", "file10.png"), ("IMG-2", "img-2"), ("aBc", "AbC")];
    for (x, y) in pairs {
        assert_eq!(natural_cmp(x, y), Ordering::Equal);
        assert_eq!(natural_cmp(x, "file2"), natural_cmp(y, "file2"));
    }
}

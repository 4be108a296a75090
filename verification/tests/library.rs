use nexa::library::{
    accept_page, filter_staging, follow_rename, remove_path, stats_values, Paging, ScanEvent,
    ScanState, MAX_DISPLAYED_ITEMS, PAGE_SIZE,
};
use nexa::models::{MediaItem, MediaType, SortOrder, StagingItem};
use std::sync::Arc;

fn s(v: &[&str]) -> Vec<String> {
    v.iter().map(|x| x.to_string()).collect()
}

fn item(path: &str, copyright: &str, artist: &str, tags: &[&str]) -> Arc<MediaItem> {
    Arc::new(MediaItem {
        path: path.to_string(),
        name: path.rsplit('/').next().unwrap().to_string(),
        media_type: MediaType::Image,
        copyright: copyright.to_string(),
        artist: artist.to_string(),
        characters: s(&["Ann"]),
        tags: s(tags),
        modified: 11,
    })
}

fn staged(path: &str) -> Arc<StagingItem> {
    Arc::new(StagingItem {
        path: path.to_string(),
        name: path.rsplit('/').next().unwrap().to_string(),
        media_type: MediaType::Image,
        modified: 0,
    })
}

fn paths(items: &[Arc<MediaItem>]) -> Vec<&str> {
    items.iter().map(|i| i.path.as_str()).collect()
}

#[test]
fn paging_through_a_query() {
    let mut p = Paging::new();
    assert_eq!((p.page, p.has_more, p.is_loading_more), (0, true, false));
    p.start_query();
    assert_eq!((p.page, p.has_more, p.is_loading_more), (0, true, true));
    assert_eq!(p.next_page_offset(0), None);
    p.page_received(PAGE_SIZE);
    assert_eq!((p.page, p.has_more, p.is_loading_more), (1, true, false));
    assert_eq!(p.next_page_offset(PAGE_SIZE), Some(PAGE_SIZE));
    assert!(p.is_loading_more);
    assert_eq!(p.next_page_offset(PAGE_SIZE), None);
    p.page_received(17);
    assert_eq!((p.page, p.has_more, p.is_loading_more), (1, false, false));
    assert_eq!(p.next_page_offset(PAGE_SIZE + 17), None);
}

#[test]
fn paging_stops_when_the_view_is_full() {
    let mut p = Paging::new();
    assert_eq!(p.next_page_offset(MAX_DISPLAYED_ITEMS), None);
    assert!(!p.is_loading_more);
    assert_eq!(p.next_page_offset(MAX_DISPLAYED_ITEMS - 1), Some(0));
    p.cancel_loading();
    assert!(!p.is_loading_more);
    p.start_query();
    assert!(p.is_loading_more);
}

#[test]
fn scan_progress_and_end() {
    let mut sc = ScanState::new();
    assert!(!sc.begin(""));
    assert!(sc.begin("/lib"));
    assert!(!sc.begin("/lib"));
    assert!(!sc.take_events(&[ScanEvent::Progress(3), ScanEvent::Progress(4)]));
    assert_eq!(sc.files_scanned, 7);
    assert!(sc.is_scanning);
    assert!(sc.take_events(&[ScanEvent::Progress(1), ScanEvent::Finished, ScanEvent::Progress(2)]));
    assert_eq!(sc.files_scanned, 10);
    assert!(!sc.is_scanning);
    assert!(sc.begin("/lib"));
    assert_eq!(sc.files_scanned, 0);
}

#[test]
fn staging_filter_matches_name_or_path() {
    let items = vec![staged("/s/Cat.png"), staged("/s/animals/dog.jpg"), staged("/s/bird.gif")];
    let names = |v: Vec<Arc<StagingItem>>| v.iter().map(|i| i.name.clone()).collect::<Vec<_>>();
    assert_eq!(names(filter_staging(&items, " CAT ")), s(&["Cat.png"]));
    assert_eq!(names(filter_staging(&items, "animals")), s(&["dog.jpg"]));
    assert_eq!(names(filter_staging(&items, "  ")), s(&["Cat.png", "dog.jpg", "bird.gif"]));
    assert_eq!(names(filter_staging(&items, "/s/")), s(&["Cat.png", "dog.jpg", "bird.gif"]));
    assert!(filter_staging(&items, "zebra").is_empty());
}

#[test]
fn statistics_of_the_first_three_items() {
    let items = vec![
        item("/l/1.png", "A", "X", &["t1", "t2"]),
        item("/l/2.png", "A", "", &["t2", "", "t3"]),
        item("/l/3.png", "", "Y", &[]),
        item("/l/4.png", "B", "Z", &["t4"]),
    ];
    let (c, a, t) = stats_values(&items).unwrap();
    assert_eq!(c, s(&["A"]));
    assert_eq!(a, s(&["X", "Y"]));
    assert_eq!(t, s(&["t1", "t2", "t3"]));
}

#[test]
fn statistics_with_nothing_to_ask() {
    assert!(stats_values(&[]).is_none());
    assert!(stats_values(&[item("/l/1.png", "", "", &[""])]).is_none());
}

#[test]
fn removing_a_path() {
    let mut v = vec![item("/l/a.png", "A", "X", &[]), item("/l/b.png", "A", "X", &[]), item("/l/a.png", "B", "Y", &[])];
    remove_path(&mut v, "/l/a.png");
    assert_eq!(paths(&v), vec!["/l/b.png"]);
    remove_path(&mut v, "/l/none.png");
    assert_eq!(paths(&v), vec!["/l/b.png"]);
}

#[test]
fn following_a_rename() {
    let mut v = vec![item("/l/a.png", "A", "X", &["t"]), item("/l/b - 2.png", "B", "Y", &["u"]), item("/l/b - 2.png", "C", "Z", &[])];
    follow_rename(&mut v, "/l/b - 2.png", "/l/b - 1.png", "b - 1.png");
    assert_eq!(paths(&v), vec!["/l/a.png", "/l/b - 1.png", "/l/b - 2.png"]);
    assert_eq!(v[1].name, "b - 1.png");
    assert_eq!((v[1].copyright.as_str(), v[1].artist.as_str()), ("B", "Y"));
    assert_eq!(v[1].tags, s(&["u"]));
    assert_eq!(v[1].characters, s(&["Ann"]));
    assert_eq!(v[1].modified, 11);
    assert_eq!(v[2].copyright, "C");
    follow_rename(&mut v, "/l/missing.png", "/l/x.png", "x.png");
    assert_eq!(paths(&v), vec!["/l/a.png", "/l/b - 1.png", "/l/b - 2.png"]);
}

#[test]
fn pages_join_the_view_in_order() {
    let mut p = Paging::new();
    p.start_query();
    let mut shown: Vec<Arc<MediaItem>> = Vec::new();
    let full: Vec<Arc<MediaItem>> = (0..PAGE_SIZE).map(|i| item(&format!("/l/p{}.png", PAGE_SIZE - i), "A", "X", &[])).collect();
    assert!(accept_page(&mut p, &mut shown, full, SortOrder::NameAsc));
    assert_eq!((p.page, p.has_more, p.is_loading_more), (1, true, false));
    assert_eq!(shown.len(), PAGE_SIZE);
    assert_eq!(shown[0].name, "p1.png");
    assert_eq!(shown[PAGE_SIZE - 1].name, format!("p{PAGE_SIZE}.png"));
    let last = vec![item("/l/p0.png", "A", "X", &[]), item("/l/q.png", "A", "X", &[])];
    assert!(!accept_page(&mut p, &mut shown, last, SortOrder::NameAsc));
    assert_eq!((p.page, p.has_more), (1, false));
    assert_eq!(shown[0].name, "p0.png");
    assert_eq!(shown[shown.len() - 1].name, "q.png");
}

#[test]
fn date_order_keeps_arrival_order() {
    let mut p = Paging::new();
    let mut shown = vec![item("/l/b.png", "A", "X", &[])];
    accept_page(&mut p, &mut shown, vec![item("/l/a.png", "A", "X", &[])], SortOrder::DateDesc);
    assert_eq!(paths(&shown), vec!["/l/b.png", "/l/a.png"]);
}

#[test]
fn removing_twice_is_removing_once() {
    let mut v = vec![item("/l/a.png", "A", "X", &[]), item("/l/b.png", "A", "X", &[])];
    remove_path(&mut v, "/l/a.png");
    let once = paths(&v).iter().map(|x| x.to_string()).collect::<Vec<_>>();
    remove_path(&mut v, "/l/a.png");
    assert_eq!(paths(&v), once);
}

#[test]
fn scan_events_in_batches_or_at_once() {
    let events = [ScanEvent::Progress(5), ScanEvent::Progress(6), ScanEvent::Finished];
    let mut once = ScanState::new();
    once.begin("/lib");
    let done_once = once.take_events(&events);
    let mut twice = ScanState::new();
    twice.begin("/lib");
    let first = twice.take_events(&events[..1]);
    let second = twice.take_events(&events[1..]);
    assert_eq!(done_once, first || second);
    assert_eq!(once.files_scanned, twice.files_scanned);
    assert_eq!(once.is_scanning, twice.is_scanning);
}

#[test]
fn a_settled_search_is_sent_while_a_page_loads() {
    let mut p = Paging::new();
    p.start_query();
    p.page_received(PAGE_SIZE);
    assert_eq!(p.next_page_offset(PAGE_SIZE), Some(PAGE_SIZE));
    assert!(p.is_loading_more);
    // A new search gives the loading page up and starts over.
    p.start_query();
    assert_eq!((p.page, p.has_more, p.is_loading_more), (0, true, true));
}

use nexa::texture_cache::{TextureLru, ThumbRequest, ThumbnailState, MAX_READY};

fn p(i: usize) -> String {
    format!("/lib/c/a/{i}.png")
}

#[test]
fn loads_up_to_the_limit_without_eviction() {
    let mut lru = TextureLru::new();
    assert_eq!(lru.len(), 0);
    for i in 0..MAX_READY {
        assert_eq!(lru.record_loaded(p(i)), None);
    }
    assert_eq!(lru.len(), MAX_READY);
    assert!(lru.contains(&p(0)));
    assert!(lru.contains(&p(MAX_READY - 1)));
}

#[test]
fn the_least_recently_used_is_evicted_first() {
    let mut lru = TextureLru::new();
    for i in 0..MAX_READY {
        lru.record_loaded(p(i));
    }
    assert_eq!(lru.record_loaded(p(MAX_READY)), Some(p(0)));
    assert!(!lru.contains(&p(0)));
    assert!(lru.contains(&p(MAX_READY)));
    assert_eq!(lru.len(), MAX_READY);
    assert_eq!(lru.record_loaded(p(MAX_READY + 1)), Some(p(1)));
    assert_eq!(lru.len(), MAX_READY);
}

#[test]
fn a_reload_makes_a_thumbnail_young_again() {
    let mut lru = TextureLru::new();
    for i in 0..MAX_READY - 1 {
        lru.record_loaded(p(i));
    }
    // Reloading a loaded path below the limit keeps the count.
    assert_eq!(lru.record_loaded(p(0)), None);
    assert_eq!(lru.len(), MAX_READY - 1);
    assert_eq!(lru.record_loaded(p(MAX_READY - 1)), None);
    // p(0) was reloaded after p(1), so p(1) leaves first.
    assert_eq!(lru.record_loaded(p(MAX_READY)), Some(p(1)));
    assert!(lru.contains(&p(0)));
}

#[test]
fn reloading_at_the_limit_first_makes_room() {
    let mut lru = TextureLru::new();
    for i in 0..MAX_READY {
        lru.record_loaded(p(i));
    }
    assert_eq!(lru.record_loaded(p(5)), Some(p(0)));
    assert_eq!(lru.len(), MAX_READY - 1);
    assert!(lru.contains(&p(5)));
}

#[test]
fn thumbnail_requests_follow_the_state() {
    let mut t = ThumbnailState::new();
    let a = p(1);
    let b = p(2);
    assert_eq!(t.visible_request(&a), ThumbRequest::Load);
    assert!(t.prefetch_wanted(&a, 0));
    assert!(!t.prefetch_wanted(&a, 3));
    t.mark_loading(a.clone());
    assert_eq!(t.visible_request(&a), ThumbRequest::Placeholder);
    assert!(!t.prefetch_wanted(&a, 0));
    assert_eq!(t.loaded(a.clone()), None);
    assert_eq!(t.visible_request(&a), ThumbRequest::Ready);
    t.mark_loading(b.clone());
    t.load_failed(b.clone());
    assert_eq!(t.visible_request(&b), ThumbRequest::Placeholder);
    assert!(!t.prefetch_wanted(&b, 0));
}

#[test]
fn invalidation_forgets_pending_and_failed() {
    let mut t = ThumbnailState::new();
    assert_eq!(t.generation(), 0);
    t.mark_loading(p(1));
    t.mark_loading(p(2));
    t.load_failed(p(2));
    t.loaded(p(3));
    t.invalidate();
    assert_eq!(t.generation(), 1);
    assert_eq!(t.visible_request(&p(1)), ThumbRequest::Load);
    assert_eq!(t.visible_request(&p(2)), ThumbRequest::Load);
    assert_eq!(t.visible_request(&p(3)), ThumbRequest::Ready);
}

#[test]
fn loaded_thumbnails_stay_bounded() {
    let mut t = ThumbnailState::new();
    for i in 0..MAX_READY + 10 {
        let ev = t.loaded(p(i));
        if i < MAX_READY {
            assert_eq!(ev, None);
        } else {
            assert_eq!(ev, Some(p(i - MAX_READY)));
        }
    }
    assert_eq!(t.visible_request(&p(0)), ThumbRequest::Load);
    assert_eq!(t.visible_request(&p(MAX_READY + 9)), ThumbRequest::Ready);
}

#[test]
fn a_use_protects_a_thumbnail_from_eviction() {
    let mut lru = TextureLru::new();
    for i in 0..MAX_READY {
        lru.record_loaded(p(i));
    }
    assert!(lru.touch(&p(0)));
    assert!(!lru.touch(&p(MAX_READY + 5)));
    assert_eq!(lru.record_loaded(p(MAX_READY)), Some(p(1)));
    assert!(lru.contains(&p(0)));
}

#[test]
fn shown_thumbnails_stay_longest() {
    let mut t = ThumbnailState::new();
    for i in 0..MAX_READY {
        t.loaded(p(i));
    }
    assert_eq!(t.visible_request(&p(0)), ThumbRequest::Ready);
    assert_eq!(t.loaded(p(MAX_READY)), Some(p(1)));
    assert_eq!(t.visible_request(&p(0)), ThumbRequest::Ready);
    assert_eq!(t.visible_request(&p(1)), ThumbRequest::Load);
}

#[test]
fn results_of_a_frame_are_taken_in() {
    let mut t = ThumbnailState::new();
    for i in 0..4 {
        t.mark_loading(p(i));
    }
    let ev = t.take_results(&[(p(0), true), (p(1), false), (p(2), true)]);
    assert!(ev.is_empty());
    assert_eq!(t.visible_request(&p(0)), ThumbRequest::Ready);
    assert_eq!(t.visible_request(&p(1)), ThumbRequest::Placeholder);
    assert_eq!(t.visible_request(&p(2)), ThumbRequest::Ready);
    // Still loading, so still a placeholder.
    assert_eq!(t.visible_request(&p(3)), ThumbRequest::Placeholder);
    assert!(!t.prefetch_wanted(&p(1), 0));
}

#[test]
fn a_large_batch_stays_within_the_cap() {
    let mut t = ThumbnailState::new();
    let batch: Vec<(String, bool)> = (0..MAX_READY + 3).map(|i| (p(i), true)).collect();
    let ev = t.take_results(&batch);
    assert_eq!(ev, vec![p(0), p(1), p(2)]);
    assert_eq!(t.visible_request(&p(0)), ThumbRequest::Load);
    assert_eq!(t.visible_request(&p(MAX_READY + 2)), ThumbRequest::Ready);
}

use nexa::config::AppConfig;
use nexa::layout::{prefetch_ranges, shorten_tail};

#[test]
fn short_text_is_kept() {
    assert_eq!(shorten_tail("short name.png", 56, 54), "short name.png");
    let exact = "x".repeat(42);
    assert_eq!(shorten_tail(&exact, 42, 40), exact);
}

#[test]
fn long_text_keeps_its_tail() {
    let long: String = (0..50).map(|i| char::from(b'a' + (i % 26) as u8)).collect();
    let got = shorten_tail(&long, 42, 40);
    assert_eq!(got, format!("\u{2026}{}", &long[10..]));
    assert_eq!(got.chars().count(), 41);
}

#[test]
fn tail_is_counted_in_bytes() {
    // 30 two-byte letters: 60 bytes, shortened to the last 40 bytes (20 letters).
    let wide = "é".repeat(30);
    assert_eq!(shorten_tail(&wide, 42, 40), format!("\u{2026}{}", "é".repeat(20)));
}

#[test]
fn prefetch_rows_around_the_view() {
    assert_eq!(prefetch_ranges(2, 5, 4, 10, 37, 2), ((0, 8), (20, 28)));
    assert_eq!(prefetch_ranges(5, 7, 4, 10, 37, 2), ((12, 20), (28, 36)));
    assert_eq!(prefetch_ranges(0, 3, 3, 3, 9, 4), ((0, 0), (9, 9)));
    assert_eq!(prefetch_ranges(8, 10, 4, 10, 37, 2), ((24, 32), (37, 37)));
}

#[test]
fn default_settings() {
    let c = AppConfig::default();
    assert!(c.library_path.is_none());
    assert_eq!(c.database_path, "../../media_vault.db");
    assert!(c.last_scan_date.is_none());
}

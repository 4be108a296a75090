use nexa::query::build_search_query;

#[test]
fn words_become_prefix_terms() {
    assert_eq!(build_search_query("foo bar"), "foo* AND bar*");
    assert_eq!(build_search_query("  foo   bar "), "foo* AND bar*");
    assert_eq!(build_search_query("one"), "one*");
    assert_eq!(build_search_query("a\tb\nc"), "a* AND b* AND c*");
}

#[test]
fn each_term_keeps_its_word() {
    assert_eq!(build_search_query("a\"b c-d"), "a\"b* AND c-d*");
    let q = build_search_query("x OR y");
    let parts: Vec<&str> = q.split(" AND ").collect();
    assert_eq!(parts, vec!["x*", "OR*", "y*"]);
}

#[test]
fn unicode_whitespace_separates_words() {
    assert_eq!(build_search_query("a\u{3000}b\u{a0}c"), "a* AND b* AND c*");
}

#[test]
fn blank_input_gives_empty_query() {
    assert_eq!(build_search_query(""), "");
    assert_eq!(build_search_query(" \t\n "), "");
}

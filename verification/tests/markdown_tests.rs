use piwrite::markdown::{
    find_all, hidden_ranges_at, normalize_plain_text, smart_return,
    try_smart_return, wrap_selection, SearchMatch,
};
use piwrite::{
    escape_link_destination, escape_link_text, inline_markup, insert_link_markdown,
    normalized_link_url, InlineKind,
};

#[test]
fn normalizes_links() {
    assert_eq!(
        normalized_link_url("www.example.com/path"),
        Some("https://www.example.com/path".into())
    );
    assert_eq!(
        normalized_link_url("mailto:writer@example.com"),
        Some("mailto:writer@example.com".into())
    );
    assert_eq!(normalized_link_url("example.com"), None);
    assert_eq!(normalized_link_url("file:///tmp/private"), None);
}

#[test]
fn link_normalization_edge_cases() {
    assert_eq!(
        normalized_link_url("  https://a.b/c \nsecond line"),
        Some("https://a.b/c".into())
    );
    assert_eq!(normalized_link_url("WWW.Example.com"), Some("https://WWW.Example.com".into()));
    assert_eq!(normalized_link_url("http://"), None);
    assert_eq!(normalized_link_url("https://user@host:8080/x"), Some("https://user@host:8080/x".into()));
    assert_eq!(normalized_link_url("ftp:////files"), Some("ftp:////files".into()));
    assert_eq!(normalized_link_url("HTTP://x"), Some("HTTP://x".into()));
    assert_eq!(normalized_link_url("   "), None);
    assert_eq!(normalized_link_url("\nhttps://a.b"), Some("https://a.b".into()));
    assert_eq!(normalized_link_url("1http://a"), None);
}

#[test]
fn finds_inline_markdown_ranges() {
    let markup = inline_markup("**bold** and *italic* and [site](https://example.com)");
    assert_eq!(markup.len(), 3);
    assert_eq!(markup[0].content.start, 2);
    assert_eq!(markup[0].content.length, 4);
    assert_eq!(markup[2].content.length, 4);
    assert_eq!(markup[2].markers[0].length, 1);
}

#[test]
fn inline_markup_kinds_and_markers() {
    let markup = inline_markup("**bold** and *italic* and [site](https://example.com)");
    assert_eq!(markup[0].kind, InlineKind::Bold);
    assert_eq!(markup[0].markers[0].start, 0);
    assert_eq!(markup[0].markers[1].start, 6);
    assert_eq!(markup[1].kind, InlineKind::Italic);
    assert_eq!(markup[1].content.start, 14);
    assert_eq!(markup[1].content.length, 6);
    assert_eq!(markup[2].kind, InlineKind::Link);
    assert_eq!(markup[2].markers[1].start, 31);
    assert_eq!(markup[2].markers[1].length, 22);
}

#[test]
fn bold_is_lazy_and_stays_on_one_line() {
    let markup = inline_markup("**a** **b**");
    assert_eq!(markup.len(), 2);
    assert_eq!(markup[1].content.start, 8);
    assert_eq!(markup[1].content.length, 1);
    assert!(inline_markup("**a\nb**").is_empty());
    let under = inline_markup("__x__");
    assert_eq!(under.len(), 1);
    assert_eq!(under[0].kind, InlineKind::Bold);
}

#[test]
fn italic_skips_doubled_markers() {
    assert!(inline_markup("*a**").is_empty());
    assert!(inline_markup("**").is_empty());
    let markup = inline_markup("_a_ *b*");
    assert_eq!(markup.len(), 2);
    assert_eq!(markup[0].content.start, 5);
    assert_eq!(markup[1].content.start, 1);
}

#[test]
fn link_destination_escapes() {
    let markup = inline_markup("[a](b\\)c)");
    assert_eq!(markup.len(), 1);
    assert_eq!(markup[0].markers[1].start, 2);
    assert_eq!(markup[0].markers[1].length, 7);
    let markup = inline_markup("[a](b\\)");
    assert_eq!(markup.len(), 1);
    assert_eq!(markup[0].markers[1].length, 5);
    assert!(inline_markup("[a]()").is_empty());
    assert!(inline_markup("[](x)").is_empty());
}

#[test]
fn replace_range_keeps_selection_offsets() {
    let inserted = normalize_plain_text("one\r\ntwo");
    assert_eq!(inserted, "one\ntwo");
    let wrapped = wrap_selection("beta", "**", "**");
    assert_eq!(wrapped, "**beta**");
}

#[test]
fn normalizes_every_line_ending() {
    assert_eq!(normalize_plain_text("a\r\r\nb\rc"), "a\n\nb\nc");
    let once = normalize_plain_text("x\r\ny\r");
    assert_eq!(normalize_plain_text(&once), once);
}

#[test]
fn smart_return_continues_lists() {
    let text = "- item";
    let (start, end, replacement) = smart_return(text, text.len(), false);
    assert_eq!((start, end, replacement.as_str()), (6, 6, "\n- "));
}

#[test]
fn smart_return_cases() {
    assert_eq!(smart_return("abc", 1, true), (1, 1, "\n".to_string()));
    assert_eq!(smart_return("hello", 5, false), (5, 5, "\n\n".to_string()));
    assert_eq!(smart_return("a\n  9. x", 8, false), (8, 8, "\n  10. ".to_string()));
    assert_eq!(smart_return("> quote", 7, false), (7, 7, "\n> ".to_string()));
    assert_eq!(smart_return("x\n- ", 4, false), (2, 4, "\n".to_string()));
    assert_eq!(smart_return("```\n- item", 10, false), (10, 10, "\n".to_string()));
    assert_eq!(smart_return("```\ncode\n```\n- item", 19, false), (19, 19, "\n- ".to_string()));
    assert_eq!(smart_return("4294967296) x", 13, false), (13, 13, "\n2) ".to_string()));
    assert_eq!(smart_return("٣. x", 5, false), (5, 5, "\n٣. ".to_string()));
    assert_eq!(smart_return("-item", 5, false), (5, 5, "\n\n".to_string()));
}

#[test]
fn smart_return_refuses_what_it_cannot_do() {
    assert_eq!(try_smart_return("4294967295. x", 13, false), None);
    assert_eq!(try_smart_return("é", 1, false), None);
    assert_eq!(try_smart_return("é", 1, true), Some((1, 1, "\n".to_string())));
    assert_eq!(try_smart_return("- a", 3, false), Some((3, 3, "\n- ".to_string())));
}

#[test]
fn escapes_link_parts() {
    assert_eq!(escape_link_text("a[b]\\c"), "a\\[b\\]\\\\c");
    assert_eq!(escape_link_destination("x(y)\\"), "x\\(y\\)\\\\");
}

#[test]
fn inserts_link_markdown() {
    assert_eq!(
        insert_link_markdown("", None),
        ("[link text](https://)".to_string(), 1, 10)
    );
    assert_eq!(
        insert_link_markdown("site", None),
        ("[site](https://)".to_string(), 7, 15)
    );
    assert_eq!(
        insert_link_markdown("a]", Some("https://x.y/(1)")),
        ("[a\\]](https://x.y/\\(1\\))".to_string(), 0, 24)
    );
    assert_eq!(insert_link_markdown("", Some("u")), ("[link text](u)".to_string(), 1, 10));
}

#[test]
fn finds_matches_case_insensitively() {
    assert_eq!(
        find_all("Hello hello", "HELLO"),
        vec![SearchMatch { start: 0, end: 5 }, SearchMatch { start: 6, end: 11 }]
    );
    assert_eq!(find_all("aaa", "aa"), vec![SearchMatch { start: 0, end: 2 }]);
    assert!(find_all("abc", "").is_empty());
    assert!(find_all("abc", "x").is_empty());
    assert_eq!(
        find_all("ÄB äb", "äb"),
        vec![SearchMatch { start: 0, end: 3 }, SearchMatch { start: 4, end: 7 }]
    );
}

#[test]
fn search_ranges_are_ranges_of_the_haystack() {
    assert_eq!(
        find_all("İİ", "İ"),
        vec![SearchMatch { start: 0, end: 2 }, SearchMatch { start: 2, end: 4 }]
    );
    assert_eq!(find_all("İx", "x"), vec![SearchMatch { start: 2, end: 3 }]);
    assert_eq!(find_all("İx", "i"), vec![]);
    assert_eq!(find_all("abc", "B"), vec![SearchMatch { start: 1, end: 2 }]);
    assert_eq!(find_all("ΟΔΟΣ", "σ"), vec![SearchMatch { start: 6, end: 8 }]);
}

#[test]
fn search_lower_cases_whole_ranges() {
    assert_eq!(find_all("ΑΣ", "ας"), vec![SearchMatch { start: 0, end: 4 }]);
    assert_eq!(find_all("ΑΣ", "Ασ"), vec![]);
    assert_eq!(find_all("ΑΣ ΑΣ", "ΑΣ"), vec![SearchMatch { start: 0, end: 4 }, SearchMatch { start: 5, end: 9 }]);
}

#[test]
fn hidden_ranges_on_the_cursor_line() {
    assert_eq!(hidden_ranges_at("**bold** x", 0), vec![(0, 2), (6, 8)]);
    assert_eq!(hidden_ranges_at("a\n*it* b", 5), vec![(2, 3), (5, 6)]);
    assert_eq!(hidden_ranges_at("*a* **b**", 99), vec![(0, 1), (2, 3), (4, 6), (7, 9)]);
    assert!(hidden_ranges_at("*a*\nplain", 6).is_empty());
}

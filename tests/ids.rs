use std::collections::HashSet;

use recstore::ids::{lowest_free, lowest_free_at_or_above};
use recstore::text::{fallback_string_if_needed, page_title, toggle_trailing_slash, urls_in_listing};

fn set_of(v: &[u32]) -> HashSet<u32> {
    v.iter().copied().collect()
}

#[test]
fn lowest_free_of_empty_set_is_zero() {
    assert_eq!(lowest_free(&set_of(&[])), 0);
}

#[test]
fn lowest_free_fills_first_gap() {
    assert_eq!(lowest_free(&set_of(&[0, 1, 3])), 2);
    assert_eq!(lowest_free(&set_of(&[1, 2])), 0);
    assert_eq!(lowest_free(&set_of(&[0, 1, 2])), 3);
}

#[test]
fn lowest_free_is_absent_and_minimal() {
    let used = set_of(&[0, 1, 2, 4, 5, 7]);
    let r = lowest_free(&used);
    assert!(!used.contains(&r));
    for j in 0..r {
        assert!(used.contains(&j));
    }
}

#[test]
fn lowest_free_above_floor() {
    assert_eq!(lowest_free_at_or_above(&set_of(&[0, 1, 3, 4]), 3), 5);
    assert_eq!(lowest_free_at_or_above(&set_of(&[]), 2), 2);
    assert_eq!(lowest_free_at_or_above(&set_of(&[0, 1]), 1), 2);
    assert_eq!(lowest_free_at_or_above(&set_of(&[5]), 4), 4);
}

#[test]
fn lowest_free_above_floor_is_absent_and_minimal() {
    let used = set_of(&[3, 4, 6, 9]);
    let r = lowest_free_at_or_above(&used, 3);
    assert!(r >= 3);
    assert!(!used.contains(&r));
    for j in 3..r {
        assert!(used.contains(&j));
    }
}

#[test]
fn lowest_free_near_the_top_of_the_range() {
    assert_eq!(lowest_free_at_or_above(&set_of(&[u32::MAX - 1]), u32::MAX - 1), u32::MAX);
}

#[test]
fn blank_document_reads_as_empty_list() {
    assert_eq!(fallback_string_if_needed(""), "[]");
    assert_eq!(fallback_string_if_needed(" \n\t\r "), "[]");
}

#[test]
fn non_blank_document_is_kept() {
    assert_eq!(fallback_string_if_needed("  [1]\n"), "  [1]\n");
    assert_eq!(fallback_string_if_needed("x"), "x");
}

#[test]
fn trailing_slash_is_toggled() {
    assert_eq!(toggle_trailing_slash("http://a.com/"), "http://a.com");
    assert_eq!(toggle_trailing_slash("http://a.com"), "http://a.com/");
    assert_eq!(toggle_trailing_slash(""), "/");
    assert_eq!(toggle_trailing_slash("/"), "");
}

#[test]
fn listing_lines_are_trimmed_and_blank_ones_dropped() {
    assert_eq!(
        urls_in_listing("  http://a.com \n\n\t\nhttp://b.com\r\nhttp://c.com"),
        vec!["http://a.com".to_string(), "http://b.com".to_string(), "http://c.com".to_string()]
    );
    assert!(urls_in_listing("").is_empty());
    assert!(urls_in_listing("\n \n").is_empty());
    assert_eq!(urls_in_listing("x\n"), vec!["x".to_string()]);
}

#[test]
fn page_title_is_text_between_tags() {
    assert_eq!(
        page_title("<html><head><title>Example Domain</title></head></html>"),
        Some("Example Domain".to_string())
    );
    assert_eq!(page_title("<title></title>"), Some(String::new()));
    assert_eq!(page_title("<title>a</title><title>b</title>"), Some("a".to_string()));
}

#[test]
fn page_without_title_has_none() {
    assert_eq!(page_title("<html></html>"), None);
    assert_eq!(page_title("<title>never closed"), None);
    assert_eq!(page_title("</title><title>"), None);
    assert_eq!(page_title(""), None);
}

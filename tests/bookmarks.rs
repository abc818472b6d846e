use std::cell::Cell;

use recstore::bookmarks::{Bookmark, BookmarkError, BookmarkManager};

fn bm(id: u32, url: &str) -> Bookmark {
    Bookmark {
        id,
        name: format!("b{}", id),
        url: url.to_string(),
        tags: Vec::new(),
        archived: false,
    }
}

#[test]
fn add_to_empty_store() {
    let mut m = BookmarkManager::new(Vec::new()).ok().unwrap();
    assert!(!m.is_modified());
    assert_eq!(m.add_bookmark("Example".to_string(), "http://example.com".to_string(), Vec::new()), Ok(()));
    let d = m.data();
    assert_eq!(d.len(), 1);
    assert_eq!(d[0].id, 0);
    assert_eq!(d[0].name, "Example");
    assert_eq!(d[0].url, "http://example.com");
    assert!(!d[0].archived);
    assert!(m.is_modified());
}

#[test]
fn trailing_slash_counts_as_duplicate() {
    let mut m = BookmarkManager::new(vec![bm(4, "http://example.com/")]).ok().unwrap();
    assert_eq!(
        m.add_bookmark("X".to_string(), "http://example.com".to_string(), Vec::new()),
        Err(BookmarkError::RepeatedUrl(4))
    );
    assert_eq!(m.data().len(), 1);
    assert!(!m.is_modified());
}

#[test]
fn missing_trailing_slash_counts_as_duplicate() {
    let m = BookmarkManager::new(vec![bm(0, "http://a.com"), bm(2, "http://b.com")]).ok().unwrap();
    assert_eq!(m.already_has_url("http://b.com/"), Some(2));
    assert_eq!(m.already_has_url("http://b.com"), Some(2));
    assert_eq!(m.already_has_url("http://c.com"), None);
}

#[test]
fn exact_url_wins_over_slash_form() {
    let m = BookmarkManager::new(vec![bm(0, "http://a.com/"), bm(1, "http://a.com")]).ok().unwrap();
    assert_eq!(m.already_has_url("http://a.com"), Some(1));
    assert_eq!(m.already_has_url("http://a.com/"), Some(0));
}

#[test]
fn repeated_id_is_refused() {
    let r = BookmarkManager::new(vec![bm(1, "a"), bm(2, "b"), bm(1, "c")]);
    assert_eq!(r.err(), Some(BookmarkError::RepeatedId(1)));
}

#[test]
fn add_takes_lowest_free_id() {
    let mut m = BookmarkManager::new(vec![bm(0, "a"), bm(2, "b")]).ok().unwrap();
    m.add_bookmark("n".to_string(), "c".to_string(), vec!["t".to_string()]).unwrap();
    m.add_bookmark("n".to_string(), "d".to_string(), Vec::new()).unwrap();
    let ids: Vec<u32> = m.data().iter().map(|b| b.id).collect();
    assert_eq!(ids, vec![0, 2, 1, 3]);
    assert_eq!(m.data()[2].tags, vec!["t".to_string()]);
}

#[test]
fn ids_stay_unique_after_adds() {
    let mut m = BookmarkManager::new(vec![bm(1, "a"), bm(3, "b")]).ok().unwrap();
    for k in 0..6 {
        m.add_bookmark("n".to_string(), format!("u{}", k), Vec::new()).unwrap();
    }
    let mut ids: Vec<u32> = m.data().iter().map(|b| b.id).collect();
    ids.sort();
    assert_eq!(ids, vec![0, 1, 2, 3, 4, 5, 6, 7]);
}

#[test]
fn title_from_url_is_trimmed() {
    let mut m = BookmarkManager::new(Vec::new()).ok().unwrap();
    m.add_bookmark_from_url("http://x.org".to_string(), "  Page Title \n").unwrap();
    assert_eq!(m.data()[0].name, "Page Title");
    assert!(m.data()[0].tags.is_empty());
    assert_eq!(
        m.add_bookmark_from_url("http://x.org/".to_string(), "Other"),
        Err(BookmarkError::RepeatedUrl(0))
    );
}

#[test]
fn save_twice_writes_once() {
    let mut m = BookmarkManager::new(vec![bm(0, "a")]).ok().unwrap();
    let writes = Cell::new(0);
    assert_eq!(m.save_if_modified(|_: &Vec<Bookmark>| -> Result<(), ()> { writes.set(writes.get() + 1); Ok(()) }), Ok(false));
    assert_eq!(writes.get(), 0);
    m.add_bookmark("n".to_string(), "b".to_string(), Vec::new()).unwrap();
    assert_eq!(m.save_if_modified(|d: &Vec<Bookmark>| -> Result<(), ()> { assert_eq!(d.len(), 2); writes.set(writes.get() + 1); Ok(()) }), Ok(true));
    assert_eq!(m.save_if_modified(|_: &Vec<Bookmark>| -> Result<(), ()> { writes.set(writes.get() + 1); Ok(()) }), Ok(false));
    assert_eq!(writes.get(), 1);
}

#[test]
fn failed_save_keeps_change_pending() {
    let mut m = BookmarkManager::new(Vec::new()).ok().unwrap();
    m.add_bookmark("n".to_string(), "b".to_string(), Vec::new()).unwrap();
    assert_eq!(m.save_if_modified(|_: &Vec<Bookmark>| Err("disk full")), Err("disk full"));
    assert!(m.is_modified());
}

#[test]
fn archive_marks_and_dirties() {
    let mut m = BookmarkManager::new(vec![bm(0, "a"), bm(5, "b")]).ok().unwrap();
    assert!(!m.archive(9));
    assert!(!m.is_modified());
    assert!(m.archive(5));
    assert!(m.data()[1].archived);
    assert!(m.is_modified());
    assert_eq!(m.unarchived_ids(), vec![0]);
}

#[test]
fn removed_id_is_reused() {
    let mut m = BookmarkManager::new(vec![bm(0, "a"), bm(1, "b"), bm(2, "c")]).ok().unwrap();
    assert!(m.remove_bookmark(0));
    let ids: Vec<u32> = m.data().iter().map(|b| b.id).collect();
    assert_eq!(ids, vec![2, 1]);
    assert!(!m.remove_bookmark(0));
    m.add_bookmark("n".to_string(), "a".to_string(), Vec::new()).unwrap();
    assert_eq!(m.data()[2].id, 0);
}

#[test]
fn unarchived_ids_keep_order() {
    let mut b = bm(3, "c");
    b.archived = true;
    let m = BookmarkManager::new(vec![bm(7, "a"), b, bm(1, "d")]).ok().unwrap();
    assert_eq!(m.unarchived_ids(), vec![7, 1]);
}

#[test]
fn find_by_id() {
    let m = BookmarkManager::new(vec![bm(3, "a"), bm(8, "b")]).ok().unwrap();
    assert_eq!(m.find(8).map(|b| b.url.clone()), Some("b".to_string()));
    assert!(m.find(4).is_none());
}

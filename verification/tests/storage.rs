use dht_spider::storage::{page_offset, search_pattern, TorrentEntry};

#[test]
fn pages_begin_where_the_last_one_ends() {
    assert_eq!(page_offset(1, 15), Some(0));
    assert_eq!(page_offset(0, 15), Some(0));
    assert_eq!(page_offset(2, 15), Some(15));
    assert_eq!(page_offset(4, 200), Some(600));
    assert_eq!(page_offset(u32::MAX, 1), Some(u32::MAX - 1));
    assert_eq!(page_offset(u32::MAX, 2), None);
    assert_eq!(page_offset(21_474_838, 200), None);
}

#[test]
fn patterns_take_text_literally() {
    assert_eq!(search_pattern(""), "%%");
    assert_eq!(search_pattern("ubuntu"), "%ubuntu%");
    assert_eq!(search_pattern("100%_中"), "%100\\%\\_中%");
    assert_eq!(search_pattern("a\\b"), "%a\\\\b%");
    assert_eq!(search_pattern("\\"), "%\\\\%");
}

#[test]
fn entries_are_copied() {
    let e = TorrentEntry {
        infohash: "ab".to_string(),
        name: "n".to_string(),
        files: "[]".to_string(),
        created_at: 5,
    };
    let c = e.clone();
    assert_eq!((c.infohash.as_str(), c.name.as_str(), c.files.as_str(), c.created_at), ("ab", "n", "[]", 5));
}

use safekp::entry::{text_field, set_text_field, JsonField, StoredEntry};
use safekp::location::{normalize_location, strip_windows_extended_prefix, str_eq, starts_with_str};
use safekp::tracking::{
    build_tracked_entry, build_tracked_entry_with_root, merge_tracked_entries,
    normalize_locations_in_entries, record_tracked_entries, untrack_location,
};

fn s(x: &str) -> String {
    x.to_string()
}

fn object(pairs: &[(&str, &str)]) -> StoredEntry {
    StoredEntry::Object(
        pairs.iter().map(|(k, v)| (s(k), JsonField::Text(s(v)))).collect(),
    )
}

fn location_of(e: &StoredEntry) -> Option<String> {
    text_field(e, "location")
}

#[test]
fn strips_unc_marker() {
    assert_eq!(strip_windows_extended_prefix("\\\\?\\UNC\\server\\share\\a.txt"), "\\\\server\\share\\a.txt");
}

#[test]
fn strips_extended_marker() {
    assert_eq!(strip_windows_extended_prefix("\\\\?\\C:\\Users\\a.txt"), "C:\\Users\\a.txt");
}

#[test]
fn leaves_plain_locations() {
    assert_eq!(strip_windows_extended_prefix("/home/user/a.txt"), "/home/user/a.txt");
    assert_eq!(strip_windows_extended_prefix(""), "");
    assert_eq!(strip_windows_extended_prefix("\\\\server\\share"), "\\\\server\\share");
}

#[test]
fn strips_only_one_marker() {
    assert_eq!(strip_windows_extended_prefix("\\\\?\\\\\\?\\C:\\a"), "\\\\?\\C:\\a");
}

#[test]
fn compares_strings() {
    assert!(str_eq("abc", "abc"));
    assert!(!str_eq("abc", "abd"));
    assert!(!str_eq("abc", "ab"));
    assert!(starts_with_str("abc", "ab"));
    assert!(!starts_with_str("ab", "abc"));
}

#[test]
fn normalizes_with_canonical_or_fallback() {
    assert_eq!(normalize_location(Some(s("\\\\?\\D:\\x")), "x"), "D:\\x");
    assert_eq!(normalize_location(None, "\\\\?\\UNC\\h\\x"), "\\\\h\\x");
    assert_eq!(normalize_location(None, "rel/x"), "rel/x");
}

#[test]
fn reads_and_writes_fields() {
    let mut e = StoredEntry::Object(vec![
        (s("location"), JsonField::Text(s("/a"))),
        (s("size"), JsonField::Other(s("12"))),
        (s("backup_hash"), JsonField::Null),
    ]);
    assert_eq!(text_field(&e, "location"), Some(s("/a")));
    assert_eq!(text_field(&e, "size"), None);
    assert_eq!(text_field(&e, "backup_hash"), None);
    assert_eq!(text_field(&e, "missing"), None);
    set_text_field(&mut e, "backup_hash", s("h1"));
    set_text_field(&mut e, "hash", s("h0"));
    assert_eq!(
        e,
        StoredEntry::Object(vec![
            (s("location"), JsonField::Text(s("/a"))),
            (s("size"), JsonField::Other(s("12"))),
            (s("backup_hash"), JsonField::Text(s("h1"))),
            (s("hash"), JsonField::Text(s("h0"))),
        ])
    );
    let mut other = StoredEntry::Other(s("[1,2]"));
    set_text_field(&mut other, "location", s("/b"));
    assert_eq!(other, StoredEntry::Other(s("[1,2]")));
    assert_eq!(text_field(&other, "location"), None);
}

#[test]
fn normalizes_location_fields_of_entries() {
    let mut entries = vec![
        object(&[
            ("location", "\\\\?\\C:\\a.txt"),
            ("backup_location", "\\\\?\\UNC\\nas\\b\\a.txt"),
            ("backup_root", "\\\\?\\E:\\r"),
            ("source_root", "\\\\?\\C:\\"),
        ]),
        StoredEntry::Other(s("3")),
        object(&[("location", "/plain")]),
    ];
    normalize_locations_in_entries(&mut entries);
    assert_eq!(
        entries,
        vec![
            object(&[
                ("location", "C:\\a.txt"),
                ("backup_location", "\\\\nas\\b\\a.txt"),
                ("backup_root", "E:\\r"),
                ("source_root", "\\\\?\\C:\\"),
            ]),
            StoredEntry::Other(s("3")),
            object(&[("location", "/plain")]),
        ]
    );
}

#[test]
fn builds_entries() {
    let (key, e) = build_tracked_entry(s("a.txt"), s("h"), s("/src/a.txt"), s("/bak/a.txt"), None);
    assert_eq!(key, "/src/a.txt");
    assert_eq!(
        e,
        StoredEntry::Object(vec![
            (s("name"), JsonField::Text(s("a.txt"))),
            (s("hash"), JsonField::Text(s("h"))),
            (s("location"), JsonField::Text(s("/src/a.txt"))),
            (s("backup_location"), JsonField::Text(s("/bak/a.txt"))),
            (s("backup_hash"), JsonField::Null),
        ])
    );
    let (key, e) = build_tracked_entry_with_root(
        s("b.txt"),
        s("h2"),
        s("/src/d/b.txt"),
        s("/bak/d/b.txt"),
        Some(s("h2")),
        s("/src"),
        s("/bak"),
    );
    assert_eq!(key, "/src/d/b.txt");
    assert_eq!(
        e,
        StoredEntry::Object(vec![
            (s("name"), JsonField::Text(s("b.txt"))),
            (s("hash"), JsonField::Text(s("h2"))),
            (s("location"), JsonField::Text(s("/src/d/b.txt"))),
            (s("backup_location"), JsonField::Text(s("/bak/d/b.txt"))),
            (s("backup_root"), JsonField::Text(s("/bak"))),
            (s("backup_hash"), JsonField::Text(s("h2"))),
            (s("source_root"), JsonField::Text(s("/src"))),
        ])
    );
}

#[test]
fn merge_replaces_known_and_appends_new() {
    let mut list = vec![
        object(&[("location", "/a"), ("hash", "1")]),
        object(&[("location", "\\\\?\\C:\\b"), ("hash", "2")]),
        StoredEntry::Other(s("null")),
    ];
    merge_tracked_entries(
        &mut list,
        vec![
            (s("C:\\b"), object(&[("location", "C:\\b"), ("hash", "22")])),
            (s("/c"), object(&[("location", "/c"), ("hash", "3")])),
            (s("/c"), object(&[("location", "/c"), ("hash", "33")])),
        ],
    );
    assert_eq!(
        list,
        vec![
            object(&[("location", "/a"), ("hash", "1")]),
            object(&[("location", "C:\\b"), ("hash", "22")]),
            StoredEntry::Other(s("null")),
            object(&[("location", "/c"), ("hash", "33")]),
        ]
    );
}

#[test]
fn merge_uses_last_duplicate_position() {
    let mut list = vec![
        object(&[("location", "/a"), ("hash", "1")]),
        object(&[("location", "/a"), ("hash", "2")]),
    ];
    merge_tracked_entries(&mut list, vec![(s("/a"), object(&[("location", "/a"), ("hash", "3")]))]);
    assert_eq!(
        list,
        vec![
            object(&[("location", "/a"), ("hash", "1")]),
            object(&[("location", "/a"), ("hash", "3")]),
        ]
    );
}

#[test]
fn record_drops_list_with_malformed_head() {
    let list = vec![StoredEntry::Other(s("1")), object(&[("location", "/a")])];
    let r = record_tracked_entries(list, vec![(s("/b"), object(&[("location", "/b")]))]);
    assert_eq!(r, vec![object(&[("location", "/b")])]);
}

#[test]
fn record_normalizes_then_merges() {
    let list = vec![object(&[("location", "\\\\?\\C:\\a"), ("hash", "old")])];
    let r = record_tracked_entries(list, vec![(s("C:\\a"), object(&[("location", "C:\\a"), ("hash", "new")]))]);
    assert_eq!(r, vec![object(&[("location", "C:\\a"), ("hash", "new")])]);
}

#[test]
fn retracking_keeps_one_entry() {
    let first = record_tracked_entries(Vec::new(), vec![(s("/a"), object(&[("location", "/a"), ("hash", "1")]))]);
    let second = record_tracked_entries(first, vec![(s("/a"), object(&[("location", "/a"), ("hash", "2")]))]);
    assert_eq!(second, vec![object(&[("location", "/a"), ("hash", "2")])]);
}

#[test]
fn untrack_drops_every_entry_at_location() {
    let list = vec![
        object(&[("location", "/a"), ("hash", "1")]),
        object(&[("name", "no location")]),
        object(&[("location", "\\\\?\\/a"), ("hash", "2")]),
        object(&[("location", "/b")]),
        StoredEntry::Other(s("true")),
    ];
    let r = untrack_location(list, "/a");
    assert_eq!(
        r,
        vec![
            object(&[("name", "no location")]),
            object(&[("location", "/b")]),
            StoredEntry::Other(s("true")),
        ]
    );
    assert!(r.iter().all(|e| location_of(e).as_deref() != Some("/a")));
}

#[test]
fn untrack_then_track_puts_entry_last() {
    let list = vec![object(&[("location", "/a"), ("hash", "1")]), object(&[("location", "/b")])];
    let r = untrack_location(list, "/a");
    let r = record_tracked_entries(r, vec![(s("/a"), object(&[("location", "/a"), ("hash", "9")]))]);
    assert_eq!(r, vec![object(&[("location", "/b")]), object(&[("location", "/a"), ("hash", "9")])]);
}

#[test]
fn track_then_untrack_restores_list() {
    let list = vec![object(&[("location", "/b"), ("hash", "2")]), object(&[("location", "/c")])];
    let tracked_once = record_tracked_entries(
        list.clone(),
        vec![(s("/a"), object(&[("location", "/a"), ("hash", "1")]))],
    );
    assert_eq!(untrack_location(tracked_once, "/a"), untrack_location(list, "/a"));
}

#[test]
fn tracking_twice_equals_once() {
    let list = vec![object(&[("location", "/a"), ("hash", "0")]), object(&[("location", "/b")])];
    let entry = (s("/a"), object(&[("location", "/a"), ("hash", "1")]));
    let once = record_tracked_entries(list, vec![entry.clone()]);
    let twice = record_tracked_entries(once.clone(), vec![entry]);
    assert_eq!(once, twice);
}

#[test]
fn merge_never_duplicates_locations() {
    let mut list = vec![object(&[("location", "/a")]), object(&[("location", "/b")])];
    merge_tracked_entries(
        &mut list,
        vec![
            (s("/b"), object(&[("location", "/b"), ("hash", "1")])),
            (s("/c"), object(&[("location", "/c")])),
            (s("/c"), object(&[("location", "/c"), ("hash", "2")])),
        ],
    );
    let mut locations: Vec<String> = list.iter().filter_map(location_of).collect();
    let before = locations.len();
    locations.sort();
    locations.dedup();
    assert_eq!(locations.len(), before);
    assert_eq!(before, 3);
}

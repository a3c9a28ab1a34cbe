use safekp::hashing::{fnv1a_update, hex16, FNV_OFFSET};
use safekp::naming::{decimal_text, folder_backup_name};
use safekp::store::tracking_list_from_text;
use safekp::command::{parse_command, Command};
use safekp::entry::{JsonField, StoredEntry};
use safekp::paths::{ascend, backup_path_for, backup_root_for_source, backup_root_from_relative};
use safekp::refresh::{apply_update_outcomes, finish_update, refresh_next, refresh_start, RefreshEvent, RefreshStep, UpdateOutcome};
use safekp::scan::{is_untracked, source_root_plan, tracked_locations_under, BackupRoot};

fn s(x: &str) -> String {
    x.to_string()
}

fn object(pairs: &[(&str, &str)]) -> StoredEntry {
    StoredEntry::Object(pairs.iter().map(|(k, v)| (s(k), JsonField::Text(s(v)))).collect())
}

fn watched(loc: &str, backup: &str) -> StoredEntry {
    object(&[("location", loc), ("backup_location", backup)])
}

#[test]
fn refresh_start_needs_both_locations() {
    assert_eq!(refresh_start(&object(&[("name", "x")])), RefreshStep::Done(UpdateOutcome::InvalidEntry));
    assert_eq!(refresh_start(&object(&[("location", "/a")])), RefreshStep::CheckUnbacked(s("/a")));
    assert_eq!(refresh_start(&StoredEntry::Other(s("1"))), RefreshStep::Done(UpdateOutcome::InvalidEntry));
    assert_eq!(refresh_start(&watched("/a", "/b")), RefreshStep::CheckSource(s("/a"), s("/b")));
}

#[test]
fn refresh_missing_source() {
    let step = refresh_next(RefreshStep::CheckSource(s("/a"), s("/b")), RefreshEvent::SourceChecked(false));
    assert_eq!(step, RefreshStep::Done(UpdateOutcome::SourceMissing(s("/a"))));
}

#[test]
fn refresh_entry_without_backup_location() {
    let gone = refresh_next(RefreshStep::CheckUnbacked(s("/a")), RefreshEvent::SourceChecked(false));
    assert_eq!(gone, RefreshStep::Done(UpdateOutcome::SourceMissing(s("/a"))));
    let present = refresh_next(RefreshStep::CheckUnbacked(s("/a")), RefreshEvent::SourceChecked(true));
    assert_eq!(present, RefreshStep::Done(UpdateOutcome::MissingBackupLocation(s("/a"))));
    let (list, changed) = apply_update_outcomes(
        vec![object(&[("location", "/a")])],
        &vec![UpdateOutcome::SourceMissing(s("/a"))],
    );
    assert!(changed);
    assert!(list.is_empty());
}

#[test]
fn refresh_hash_failure() {
    let step = refresh_next(RefreshStep::HashSource(s("/a"), s("/b")), RefreshEvent::SourceHashed(None));
    assert_eq!(step, RefreshStep::Done(UpdateOutcome::HashFailed(s("/a"))));
}

#[test]
fn refresh_up_to_date() {
    let step = refresh_next(
        RefreshStep::HashBackup(s("/a"), s("/b"), s("h")),
        RefreshEvent::BackupHashed(Some(s("h"))),
    );
    assert_eq!(step, RefreshStep::Done(UpdateOutcome::UpToDate));
}

#[test]
fn refresh_full_copy() {
    let mut step = refresh_start(&watched("/a", "/b"));
    step = refresh_next(step, RefreshEvent::SourceChecked(true));
    assert_eq!(step, RefreshStep::HashSource(s("/a"), s("/b")));
    step = refresh_next(step, RefreshEvent::SourceHashed(Some(s("h"))));
    assert_eq!(step, RefreshStep::HashBackup(s("/a"), s("/b"), s("h")));
    step = refresh_next(step, RefreshEvent::BackupHashed(Some(s("old"))));
    assert_eq!(step, RefreshStep::PrepareDir(s("/a"), s("/b"), s("h")));
    step = refresh_next(step, RefreshEvent::DirReady);
    assert_eq!(step, RefreshStep::CopyToBackup(s("/a"), s("/b"), s("h")));
    step = refresh_next(step, RefreshEvent::Copied);
    assert_eq!(step, RefreshStep::Done(UpdateOutcome::Refreshed(s("h"))));
}

#[test]
fn refresh_backup_unreadable_then_failures() {
    let step = refresh_next(
        RefreshStep::HashBackup(s("/a"), s("/b"), s("h")),
        RefreshEvent::BackupHashed(None),
    );
    assert_eq!(step, RefreshStep::PrepareDir(s("/a"), s("/b"), s("h")));
    let failed_dir = refresh_next(step.clone(), RefreshEvent::DirFailed(s("denied")));
    assert_eq!(failed_dir, RefreshStep::Done(UpdateOutcome::DirCreateFailed(s("/b"), s("denied"))));
    let failed_copy = refresh_next(
        RefreshStep::CopyToBackup(s("/a"), s("/b"), s("h")),
        RefreshEvent::CopyFailed(s("disk full")),
    );
    assert_eq!(failed_copy, RefreshStep::Done(UpdateOutcome::CopyFailed(s("/b"), s("disk full"))));
}

#[test]
fn apply_outcomes_drops_missing_and_records_hashes() {
    let list = vec![
        watched("/a", "/ba"),
        watched("/gone", "/bg"),
        object(&[("location", "/c"), ("backup_location", "/bc"), ("hash", "0"), ("backup_hash", "0")]),
        object(&[("name", "x")]),
    ];
    let outcomes = vec![
        UpdateOutcome::UpToDate,
        UpdateOutcome::SourceMissing(s("/gone")),
        UpdateOutcome::Refreshed(s("7")),
        UpdateOutcome::InvalidEntry,
    ];
    let (list, changed) = apply_update_outcomes(list, &outcomes);
    assert!(changed);
    assert_eq!(
        list,
        vec![
            watched("/a", "/ba"),
            object(&[("location", "/c"), ("backup_location", "/bc"), ("hash", "7"), ("backup_hash", "7")]),
            object(&[("name", "x")]),
        ]
    );
}

#[test]
fn apply_outcomes_without_change() {
    let list = vec![watched("/a", "/ba"), watched("/b", "/bb")];
    let outcomes = vec![UpdateOutcome::UpToDate, UpdateOutcome::HashFailed(s("/b"))];
    let (after, changed) = apply_update_outcomes(list.clone(), &outcomes);
    assert!(!changed);
    assert_eq!(after, list);
}

#[test]
fn plans_each_source_root_once() {
    let list = vec![
        object(&[("location", "/s/a"), ("backup_location", "/b/a"), ("source_root", "\\\\?\\C:\\s"), ("backup_root", "\\\\?\\D:\\b")]),
        object(&[("location", "/s/b"), ("backup_location", "/x/b"), ("source_root", "C:\\s"), ("backup_root", "X:\\b")]),
        object(&[("location", "/t/c"), ("backup_location", "/u/c"), ("source_root", "/t")]),
        object(&[("location", "/v/c"), ("source_root", "/v")]),
    ];
    let plan = source_root_plan(&list);
    assert_eq!(
        plan,
        vec![
            (s("C:\\s"), BackupRoot::Recorded(s("D:\\b"))),
            (
                s("/t"),
                BackupRoot::Derive { backup_location: s("/u/c"), location: s("/t/c"), source_root: s("/t") }
            ),
        ]
    );
}

#[test]
fn finds_locations_under_root_and_new_files() {
    let list = vec![
        object(&[("location", "\\\\?\\C:\\s\\a"), ("source_root", "\\\\?\\C:\\s")]),
        object(&[("location", "C:\\t\\b"), ("source_root", "C:\\t")]),
        object(&[("location", "C:\\s\\c"), ("source_root", "C:\\s")]),
    ];
    let known = tracked_locations_under(&list, "C:\\s");
    assert_eq!(known, vec![s("C:\\s\\a"), s("C:\\s\\c")]);
    assert!(!is_untracked(&known, "C:\\s\\a"));
    assert!(is_untracked(&known, "C:\\s\\new"));
}

#[test]
fn ascends_parent_folders() {
    assert_eq!(ascend(s("/bak/d/e/f.txt"), 2), "/bak/d");
    assert_eq!(ascend(s("/bak/f.txt"), 0), "/bak/f.txt");
    assert_eq!(ascend(s("/bak"), 5), "/");
    assert_eq!(ascend(s("file.txt"), 1), "");
    assert_eq!(ascend(s("file.txt"), 3), "");
}

#[test]
fn backup_root_from_relative_location() {
    assert_eq!(backup_root_from_relative("/fb", Some(s("d/f")), 2, Some(s("/bak/d/f"))), "/bak");
    assert_eq!(backup_root_from_relative("/fb", Some(s("")), 0, Some(s("/bak/f"))), "/bak/f");
    assert_eq!(backup_root_from_relative("/fb", None, 2, Some(s("/bak/d/f"))), "/fb");
    assert_eq!(backup_root_from_relative("/fb", Some(s("d/f")), 2, None), "/fb");
}

#[test]
fn derives_backup_root() {
    let r = backup_root_for_source(
        "/fallback",
        Some(s("/src/d/f.txt")),
        Some(s("/src")),
        Some(s("/bak/d/f.txt")),
    );
    assert_eq!(r, "/bak");
    assert_eq!(
        backup_root_for_source("/fallback", Some(s("/src")), Some(s("/src")), Some(s("/b/x"))),
        "/b/x"
    );
    assert_eq!(backup_root_for_source("/fallback", None, Some(s("/src")), Some(s("/b"))), "/fallback");
    assert_eq!(
        backup_root_for_source("/fallback", Some(s("/other/f")), Some(s("/src")), Some(s("/b/f"))),
        "/fallback"
    );
    assert_eq!(
        backup_root_for_source("/fallback", Some(s("/src/f")), Some(s("/src")), None),
        "/fallback"
    );
}

fn args(xs: &[&str]) -> Vec<String> {
    xs.iter().map(|x| s(x)).collect()
}

#[test]
fn parses_commands() {
    assert_eq!(parse_command(&args(&[])), Command::NoArguments);
    assert_eq!(parse_command(&args(&["-v"])), Command::Version);
    assert_eq!(parse_command(&args(&["-v", "x"])), Command::Version);
    assert_eq!(parse_command(&args(&["-version"])), Command::Version);
    assert_eq!(parse_command(&args(&["-version", "x"])), Command::Unrecognized);
    assert_eq!(
        parse_command(&args(&["-t", "a", "b"])),
        Command::Track { source: s("a"), destination: s("b") }
    );
    assert_eq!(parse_command(&args(&["-t", "a"])), Command::Unrecognized);
    assert_eq!(
        parse_command(&args(&["-track", "a", "b", "c"])),
        Command::Track { source: s("a"), destination: s("b") }
    );
    assert_eq!(parse_command(&args(&["-u"])), Command::Update);
    assert_eq!(parse_command(&args(&["-update", "x"])), Command::Update);
    assert_eq!(
        parse_command(&args(&["-b", "a", "b"])),
        Command::Backup { source: s("a"), destination: s("b") }
    );
    assert_eq!(parse_command(&args(&["-h"])), Command::Help);
    assert_eq!(parse_command(&args(&["-help", "x"])), Command::Help);
    assert_eq!(parse_command(&args(&["-h", "x"])), Command::Unrecognized);
    assert_eq!(parse_command(&args(&["-x"])), Command::Unrecognized);
}

#[test]
fn backup_path_keeps_folder_structure() {
    assert_eq!(backup_path_for("/src/d/f.txt", "/src", "/bak"), Some(s("/bak/d/f.txt")));
    assert_eq!(backup_path_for("src/f.txt", "src", "bak/x"), Some(s("bak/x/f.txt")));
    assert_eq!(backup_path_for("/other/f.txt", "/src", "/bak"), None);
    assert_eq!(backup_path_for("/srcx/f.txt", "/src", "/bak"), None);
}

#[test]
fn hashes_bytes_with_fnv1a() {
    assert_eq!(hex16(fnv1a_update(FNV_OFFSET, b"")), "cbf29ce484222325");
    assert_eq!(hex16(fnv1a_update(FNV_OFFSET, b"a")), "af63dc4c8601ec8c");
    assert_eq!(hex16(fnv1a_update(FNV_OFFSET, b"foobar")), "85944171f73967e8");
    let split = fnv1a_update(fnv1a_update(FNV_OFFSET, b"foo"), b"bar");
    assert_eq!(split, fnv1a_update(FNV_OFFSET, b"foobar"));
    assert_eq!(hex16(0), "0000000000000000");
    assert_eq!(hex16(0xff), "00000000000000ff");
}

#[test]
fn names_folder_backups() {
    assert_eq!(decimal_text(0), "0");
    assert_eq!(decimal_text(1725029869), "1725029869");
    assert_eq!(decimal_text(u64::MAX), "18446744073709551615");
    assert_eq!(folder_backup_name("Documents", 1700000000), "Documents_1700000000");
}

#[test]
fn reads_tracking_text() {
    assert_eq!(tracking_list_from_text(""), Vec::new());
    assert_eq!(tracking_list_from_text("  \n "), Vec::new());
    assert_eq!(tracking_list_from_text("{\"location\": \"/a\"}"), Vec::new());
    assert_eq!(tracking_list_from_text("[1, 2"), Vec::new());
    assert_eq!(
        tracking_list_from_text(" [ {\"location\": \"/a\", \"size\": 3, \"backup_hash\": null}, [1,2] ] \n"),
        vec![
            StoredEntry::Object(vec![
                (s("backup_hash"), JsonField::Null),
                (s("location"), JsonField::Text(s("/a"))),
                (s("size"), JsonField::Other(s("3"))),
            ]),
            StoredEntry::Other(s("[1,2]")),
        ]
    );
}

#[test]
fn update_writes_only_on_change() {
    let list = vec![watched("/a", "/ba")];
    let (same, write) = finish_update(list.clone(), &vec![UpdateOutcome::UpToDate], false);
    assert!(!write);
    assert_eq!(same, list);
    let (_, write) = finish_update(list.clone(), &vec![UpdateOutcome::UpToDate], true);
    assert!(write);
    let (after, write) = finish_update(list, &vec![UpdateOutcome::Refreshed(s("9"))], false);
    assert!(write);
    assert_eq!(after, vec![object(&[("location", "/a"), ("backup_location", "/ba"), ("hash", "9"), ("backup_hash", "9")])]);
}

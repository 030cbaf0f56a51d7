use unisync::compress::compress_dirs;
use unisync::differ::{diff_snapshots, DiffKind, DiffOptions, PathType};
use unisync::entry::{Entry, EntryStatus};
use unisync::paths::{parent_of, path_lt, path_starts_with_dir, str_eq, strip_prefix};
use unisync::scanner::{is_path_sorted, merge_snapshot};

fn entry(status: EntryStatus, path: &str, timestamp: u64, size: u64, perms: u32, hash: &str) -> Entry {
    Entry {
        status,
        timestamp,
        size,
        perms,
        hash: String::from(hash),
        path: String::from(path),
    }
}

fn live(path: &str, timestamp: u64, size: u64, perms: u32) -> Entry {
    entry(EntryStatus::New, path, timestamp, size, perms, "")
}

fn opts() -> DiffOptions {
    DiffOptions { no_times: false, no_perms: false, no_compress: false }
}

#[test]
fn path_order_is_byte_lexicographic() {
    assert!(path_lt("a/1.txt", "a/2.txt"));
    assert!(path_lt("a", "a/1.txt"));
    assert!(!path_lt("b", "a/1.txt"));
    assert!(!path_lt("a", "a"));
    assert!(path_lt("", "a"));
}

#[test]
fn str_eq_compares_contents() {
    assert!(str_eq("abc", "abc"));
    assert!(!str_eq("abc", "abd"));
    assert!(!str_eq("abc", "ab"));
    assert!(str_eq("", ""));
}

#[test]
fn parent_strips_the_last_component() {
    assert_eq!(parent_of("a/b/c.txt"), Some(String::from("a/b")));
    assert_eq!(parent_of("a/b"), Some(String::from("a")));
    assert_eq!(parent_of("top.txt"), None);
    assert_eq!(parent_of(""), None);
}

#[test]
fn dir_prefix_respects_component_boundaries() {
    assert!(path_starts_with_dir("a/b/c.txt", "a/b"));
    assert!(path_starts_with_dir("a/b", "a/b"));
    assert!(!path_starts_with_dir("a/bc", "a/b"));
    assert!(path_starts_with_dir("anything", ""));
}

#[test]
fn is_path_sorted_checks_strict_order() {
    let sorted = vec![live("a", 1, 1, 0), live("b", 1, 1, 0)];
    assert!(is_path_sorted(&sorted));
    let dup = vec![live("a", 1, 1, 0), live("a", 1, 1, 0)];
    assert!(!is_path_sorted(&dup));
    let unsorted = vec![live("b", 1, 1, 0), live("a", 1, 1, 0)];
    assert!(!is_path_sorted(&unsorted));
    let empty: Vec<Entry> = Vec::new();
    assert!(is_path_sorted(&empty));
}

#[test]
fn merge_with_no_previous_snapshot_marks_everything_new() {
    let prev: Vec<Entry> = Vec::new();
    let walk = vec![live("a.txt", 10, 1, 0), live("b.txt", 20, 2, 0)];
    let out = merge_snapshot(&prev, &walk);
    assert_eq!(out.len(), 2);
    for e in &out {
        assert_eq!(e.status, EntryStatus::New);
        assert_eq!(e.hash, "");
        assert!(e.needs_digest());
    }
}

#[test]
fn merge_with_empty_walk_marks_everything_deleted() {
    let prev = vec![entry(EntryStatus::New, "a.txt", 10, 1, 0, "h1")];
    let walk: Vec<Entry> = Vec::new();
    let out = merge_snapshot(&prev, &walk);
    assert_eq!(out.len(), 1);
    assert_eq!(out[0].status, EntryStatus::Deleted);
    // last known values are kept for audit
    assert_eq!(out[0].hash, "h1");
    assert_eq!(out[0].timestamp, 10);
    assert!(!out[0].needs_digest());
}

#[test]
fn merge_reuses_digest_when_time_and_size_match() {
    let prev = vec![entry(EntryStatus::New, "a.txt", 10, 1, 420, "h1")];
    let walk = vec![live("a.txt", 10, 1, 493)];
    let out = merge_snapshot(&prev, &walk);
    assert_eq!(out.len(), 1);
    assert_eq!(out[0].status, EntryStatus::Unchanged);
    assert_eq!(out[0].hash, "h1");
    // current permission bits are taken from the live walk
    assert_eq!(out[0].perms, 493);
    assert!(!out[0].needs_digest());
}

#[test]
fn merge_recomputes_digest_when_time_or_size_differ() {
    let prev = vec![
        entry(EntryStatus::New, "a.txt", 10, 1, 0, "h1"),
        entry(EntryStatus::New, "b.txt", 10, 1, 0, "h2"),
    ];
    let walk = vec![live("a.txt", 11, 1, 0), live("b.txt", 10, 9, 0)];
    let out = merge_snapshot(&prev, &walk);
    assert_eq!(out.len(), 2);
    for e in &out {
        assert_eq!(e.status, EntryStatus::Modified);
        assert_eq!(e.hash, "");
        assert!(e.needs_digest());
    }
}

#[test]
fn merge_interleaves_new_and_deleted() {
    let prev = vec![
        entry(EntryStatus::New, "b.txt", 10, 1, 0, "hb"),
        entry(EntryStatus::New, "d.txt", 10, 1, 0, "hd"),
    ];
    let walk = vec![live("a.txt", 1, 1, 0), live("b.txt", 10, 1, 0), live("c.txt", 1, 1, 0)];
    let out = merge_snapshot(&prev, &walk);
    let tags: Vec<(String, EntryStatus)> =
        out.iter().map(|e| (e.path.clone(), e.status)).collect();
    assert_eq!(
        tags,
        vec![
            (String::from("a.txt"), EntryStatus::New),
            (String::from("b.txt"), EntryStatus::Unchanged),
            (String::from("c.txt"), EntryStatus::New),
            (String::from("d.txt"), EntryStatus::Deleted),
        ]
    );
}

#[test]
fn merge_keeps_error_entries_without_digest() {
    let prev = vec![entry(EntryStatus::New, "a.txt", 10, 1, 0, "h1")];
    let walk = vec![entry(EntryStatus::Error, "a.txt", 0, 0, 0, "")];
    let out = merge_snapshot(&prev, &walk);
    assert_eq!(out[0].status, EntryStatus::Error);
    assert_eq!(out[0].hash, "");
    assert!(!out[0].needs_digest());
}

#[test]
fn rescanning_an_unchanged_root_changes_nothing_and_rehashes_nothing() {
    let prev: Vec<Entry> = Vec::new();
    let walk = vec![live("a/x.txt", 5, 7, 420), live("b.txt", 6, 8, 420)];
    let mut first = merge_snapshot(&prev, &walk);
    for e in &mut first {
        assert!(e.needs_digest());
        e.hash = String::from("somehash");
    }
    // a second pass over the same files
    let walk_again = vec![live("a/x.txt", 5, 7, 420), live("b.txt", 6, 8, 420)];
    let second = merge_snapshot(&first, &walk_again);
    assert_eq!(second.len(), first.len());
    for (s, f) in second.iter().zip(first.iter()) {
        assert_eq!(s.status, EntryStatus::Unchanged);
        assert_eq!(s.hash, f.hash);
        assert_eq!(s.timestamp, f.timestamp);
        assert_eq!(s.size, f.size);
        assert_eq!(s.perms, f.perms);
        assert_eq!(s.path, f.path);
        assert!(!s.needs_digest());
    }
    // and a third pass returns the second snapshot unchanged
    let walk_third = vec![live("a/x.txt", 5, 7, 420), live("b.txt", 6, 8, 420)];
    let third = merge_snapshot(&second, &walk_third);
    for (t, s) in third.iter().zip(second.iter()) {
        assert_eq!(t.status, EntryStatus::Unchanged);
        assert_eq!(t.hash, s.hash);
    }
}

#[test]
fn compress_climbs_to_the_topmost_missing_ancestor() {
    assert_eq!(
        compress_dirs(None, None, &String::from("a/1.txt")),
        Some(String::from("a"))
    );
    assert_eq!(
        compress_dirs(None, None, &String::from("a/b/c/1.txt")),
        Some(String::from("a"))
    );
}

#[test]
fn compress_fails_for_a_top_level_file() {
    assert_eq!(compress_dirs(None, None, &String::from("1.txt")), None);
}

#[test]
fn compress_stops_below_a_boundary() {
    // the other side holds a/z.txt, so only a/b can be compressed
    let boundary = String::from("a/z.txt");
    assert_eq!(
        compress_dirs(Some(&boundary), None, &String::from("a/b/1.txt")),
        Some(String::from("a/b"))
    );
    // a sibling in the same directory blocks compression entirely
    assert_eq!(
        compress_dirs(Some(&boundary), None, &String::from("a/1.txt")),
        None
    );
    // the second boundary blocks just the same
    assert_eq!(
        compress_dirs(None, Some(&boundary), &String::from("a/1.txt")),
        None
    );
}

#[test]
fn compress_ignores_top_level_boundaries() {
    let boundary = String::from("z.txt");
    assert_eq!(
        compress_dirs(Some(&boundary), Some(&boundary), &String::from("a/1.txt")),
        Some(String::from("a"))
    );
}

#[test]
fn whole_directory_missing_becomes_one_dir_difference() {
    let a = vec![
        entry(EntryStatus::New, "a/1.txt", 1, 1, 0, "h1"),
        entry(EntryStatus::New, "a/2.txt", 1, 1, 0, "h2"),
    ];
    let b: Vec<Entry> = Vec::new();
    let (diffs, lines) = diff_snapshots(&a, &b, opts(), "rootA", "rootB");
    assert_eq!(diffs.len(), 1);
    assert_eq!(diffs[0].status, DiffKind::Missing);
    assert_eq!(diffs[0].path_type, PathType::Dir);
    assert_eq!(diffs[0].path, "a");
    assert_eq!(diffs[0].side, 1);
    assert_eq!(diffs[0].path1, "rootA/a");
    assert_eq!(diffs[0].path2, "rootB/a");
    assert_eq!(lines.len(), 1);
    assert_eq!(lines[0], "MISSING a\tcp -R rootA/a rootB/a");
}

#[test]
fn time_difference_reported_or_suppressed() {
    let a = vec![entry(EntryStatus::New, "x.txt", 100, 5, 420, "same")];
    let b = vec![entry(EntryStatus::New, "x.txt", 200, 5, 420, "same")];
    let (diffs, lines) = diff_snapshots(&a, &b, opts(), "r1", "r2");
    assert_eq!(diffs.len(), 1);
    assert_eq!(diffs[0].status, DiffKind::Time);
    assert_eq!(diffs[0].side, 1);
    assert!(lines[0].starts_with("TIME x.txt\ttouch -t "));
    assert!(lines[0].ends_with(" r2/x.txt"));
    let silenced = DiffOptions { no_times: true, no_perms: false, no_compress: false };
    let (diffs, _) = diff_snapshots(&a, &b, silenced, "r1", "r2");
    assert_eq!(diffs.len(), 0);
}

#[test]
fn perms_difference_reported_or_suppressed() {
    let a = vec![entry(EntryStatus::New, "x.txt", 100, 5, 420, "same")];
    let b = vec![entry(EntryStatus::New, "x.txt", 100, 5, 493, "same")];
    let (diffs, lines) = diff_snapshots(&a, &b, opts(), "r1", "r2");
    assert_eq!(diffs.len(), 1);
    assert_eq!(diffs[0].status, DiffKind::Perms);
    assert_eq!(lines[0], "PERMS x.txt");
    let silenced = DiffOptions { no_times: false, no_perms: true, no_compress: false };
    let (diffs, _) = diff_snapshots(&a, &b, silenced, "r1", "r2");
    assert_eq!(diffs.len(), 0);
}

#[test]
fn size_or_digest_difference_is_changed() {
    let a = vec![entry(EntryStatus::New, "x.txt", 100, 5, 420, "h1")];
    let b = vec![entry(EntryStatus::New, "x.txt", 100, 6, 420, "h1")];
    let (diffs, lines) = diff_snapshots(&a, &b, opts(), "r1", "r2");
    assert_eq!(diffs[0].status, DiffKind::Changed);
    assert_eq!(diffs[0].side, 0);
    assert_eq!(lines[0], "CHANGED x.txt");
    let a = vec![entry(EntryStatus::New, "x.txt", 100, 5, 420, "h1")];
    let b = vec![entry(EntryStatus::New, "x.txt", 100, 5, 420, "h2")];
    let (diffs, _) = diff_snapshots(&a, &b, opts(), "r1", "r2");
    assert_eq!(diffs[0].status, DiffKind::Changed);
}

#[test]
fn deletion_wins_over_content_and_names_the_surviving_side() {
    let a = vec![entry(EntryStatus::Deleted, "x.txt", 100, 5, 420, "h1")];
    let b = vec![entry(EntryStatus::New, "x.txt", 999, 77, 0, "h2")];
    let (diffs, lines) = diff_snapshots(&a, &b, opts(), "r1", "r2");
    assert_eq!(diffs.len(), 1);
    assert_eq!(diffs[0].status, DiffKind::Deleted);
    assert_eq!(diffs[0].side, 2);
    assert_eq!(lines[0], "DELETED x.txt");
    let (diffs, _) = diff_snapshots(&b, &a, opts(), "r1", "r2");
    assert_eq!(diffs[0].status, DiffKind::Deleted);
    assert_eq!(diffs[0].side, 1);
}

#[test]
fn deleted_on_both_sides_is_no_difference() {
    let a = vec![entry(EntryStatus::Deleted, "x.txt", 1, 1, 0, "h")];
    let b = vec![entry(EntryStatus::Deleted, "x.txt", 2, 2, 0, "h")];
    let (diffs, _) = diff_snapshots(&a, &b, opts(), "r1", "r2");
    assert_eq!(diffs.len(), 0);
}

#[test]
fn deleted_entry_stays_deleted_and_never_goes_missing() {
    // a file recorded in the previous snapshot but gone from the live walk,
    // on two rescans in a row
    let prev = vec![
        entry(EntryStatus::New, "gone/old.txt", 1, 1, 0, "h"),
        entry(EntryStatus::New, "keep.txt", 1, 1, 0, "k"),
    ];
    let walk1 = vec![live("keep.txt", 1, 1, 0)];
    let first = merge_snapshot(&prev, &walk1);
    assert_eq!(first[0].path, "gone/old.txt");
    assert_eq!(first[0].status, EntryStatus::Deleted);
    let walk2 = vec![live("keep.txt", 1, 1, 0)];
    let second = merge_snapshot(&first, &walk2);
    assert_eq!(second[0].path, "gone/old.txt");
    assert_eq!(second[0].status, EntryStatus::Deleted);
    // the other root never saw the file: no difference at all is reported,
    // in particular no directory-level missing one
    let other = vec![entry(EntryStatus::New, "keep.txt", 1, 1, 0, "k")];
    let (diffs, _) = diff_snapshots(&second, &other, opts(), "r1", "r2");
    assert_eq!(diffs.len(), 0);
}

#[test]
fn two_missing_files_in_one_directory_yield_one_dir_difference() {
    let a = vec![
        entry(EntryStatus::New, "d/1.txt", 1, 1, 0, "h1"),
        entry(EntryStatus::New, "d/2.txt", 1, 1, 0, "h2"),
        entry(EntryStatus::New, "z.txt", 1, 1, 0, "hz"),
    ];
    let b = vec![entry(EntryStatus::New, "z.txt", 1, 1, 0, "hz")];
    let (diffs, _) = diff_snapshots(&a, &b, opts(), "r1", "r2");
    assert_eq!(diffs.len(), 1);
    assert_eq!(diffs[0].status, DiffKind::Missing);
    assert_eq!(diffs[0].path_type, PathType::Dir);
    assert_eq!(diffs[0].path, "d");
}

#[test]
fn no_compress_reports_each_file_by_itself() {
    let a = vec![
        entry(EntryStatus::New, "d/1.txt", 1, 1, 0, "h1"),
        entry(EntryStatus::New, "d/2.txt", 1, 1, 0, "h2"),
    ];
    let b: Vec<Entry> = Vec::new();
    let flat = DiffOptions { no_times: false, no_perms: false, no_compress: true };
    let (diffs, lines) = diff_snapshots(&a, &b, flat, "r1", "r2");
    assert_eq!(diffs.len(), 2);
    assert_eq!(diffs[0].path, "d/1.txt");
    assert_eq!(diffs[0].path_type, PathType::File);
    assert_eq!(diffs[1].path, "d/2.txt");
    assert_eq!(lines[0], "MISSING d/1.txt\tcp r1/d/1.txt r2/d/1.txt");
}

#[test]
fn sibling_on_the_other_side_blocks_compression() {
    // d holds a file on side 2, so d must not be compressed away
    let a = vec![
        entry(EntryStatus::New, "d/1.txt", 1, 1, 0, "h1"),
        entry(EntryStatus::New, "d/3.txt", 1, 1, 0, "h3"),
    ];
    let b = vec![entry(EntryStatus::New, "d/2.txt", 1, 1, 0, "h2")];
    let (diffs, _) = diff_snapshots(&a, &b, opts(), "r1", "r2");
    // d/1.txt and d/3.txt are missing on side 2, d/2.txt missing on side 1,
    // each at file level
    assert_eq!(diffs.len(), 3);
    for d in &diffs {
        assert_eq!(d.status, DiffKind::Missing);
        assert_eq!(d.path_type, PathType::File);
    }
    assert_eq!(diffs[0].path, "d/1.txt");
    assert_eq!(diffs[0].side, 1);
    assert_eq!(diffs[1].path, "d/2.txt");
    assert_eq!(diffs[1].side, 2);
    assert_eq!(diffs[2].path, "d/3.txt");
    assert_eq!(diffs[2].side, 1);
}

#[test]
fn missing_on_side_two_copies_from_the_second_root() {
    let a: Vec<Entry> = Vec::new();
    let b = vec![entry(EntryStatus::New, "only.txt", 1, 1, 0, "h")];
    let (diffs, lines) = diff_snapshots(&a, &b, opts(), "r1", "r2");
    assert_eq!(diffs.len(), 1);
    assert_eq!(diffs[0].side, 2);
    assert_eq!(diffs[0].path_type, PathType::File);
    assert_eq!(lines[0], "MISSING only.txt\tcp r2/only.txt r1/only.txt");
}

#[test]
fn strip_prefix_takes_the_root_off_the_front() {
    assert_eq!(strip_prefix("root/a/b.txt", "root/"), Some(String::from("a/b.txt")));
    assert_eq!(strip_prefix("root/a", "other/"), None);
    assert_eq!(strip_prefix("r", "root/"), None);
    assert_eq!(strip_prefix("abc", ""), Some(String::from("abc")));
}

#[test]
fn time_difference_with_extreme_timestamps_still_renders_a_line() {
    // timestamps beyond the calendar's range fall back to a plain rendering
    let far = vec![entry(EntryStatus::New, "x.txt", u64::MAX, 5, 420, "same")];
    let near = vec![entry(EntryStatus::New, "x.txt", 100, 5, 420, "same")];
    let (diffs, lines) = diff_snapshots(&far, &near, opts(), "r1", "r2");
    assert_eq!(diffs.len(), 1);
    assert_eq!(diffs[0].status, DiffKind::Time);
    assert!(lines[0].starts_with("TIME x.txt\ttouch -t "));
    // out of the calendar's range but within signed 64-bit seconds
    let wide = vec![entry(EntryStatus::New, "x.txt", 9_000_000_000_000_000, 5, 420, "same")];
    let (diffs, lines) = diff_snapshots(&wide, &near, opts(), "r1", "r2");
    assert_eq!(diffs.len(), 1);
    assert!(lines[0].starts_with("TIME x.txt\ttouch -t "));
}

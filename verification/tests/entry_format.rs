use unisync::digest::digest_hex;
use unisync::entry::{parse_line, Entry, EntryStatus};

fn sample_entry() -> Entry {
    Entry {
        status: EntryStatus::New,
        timestamp: 1700000000,
        size: 4096,
        perms: 33188,
        hash: String::from("deadbeef"),
        path: String::from("dir/file.txt"),
    }
}

#[test]
fn to_string_writes_six_tab_fields() {
    let e = sample_entry();
    assert_eq!(e.to_string(), "NEW\t1700000000\t4096\t33188\tdeadbeef\tdir/file.txt");
}

#[test]
fn to_string_all_status_tags() {
    let mut e = sample_entry();
    e.status = EntryStatus::Modified;
    assert!(e.to_string().starts_with("MODIFIED\t"));
    e.status = EntryStatus::Unchanged;
    assert!(e.to_string().starts_with("UNCHANGED\t"));
    e.status = EntryStatus::Deleted;
    assert!(e.to_string().starts_with("DELETED\t"));
    e.status = EntryStatus::Error;
    assert!(e.to_string().starts_with("ERROR\t"));
}

#[test]
fn new_reads_a_manifest_line() {
    let e = Entry::new(String::from("UNCHANGED\t12\t34\t56\tcafe\ta/b.txt"));
    assert_eq!(e.status, EntryStatus::Unchanged);
    assert_eq!(e.timestamp, 12);
    assert_eq!(e.size, 34);
    assert_eq!(e.perms, 56);
    assert_eq!(e.hash, "cafe");
    assert_eq!(e.path, "a/b.txt");
}

#[test]
fn parse_round_trip() {
    let e = sample_entry();
    let line = e.to_string();
    let back = parse_line(&line).expect("a written line reads back");
    assert_eq!(back.status, e.status);
    assert_eq!(back.timestamp, e.timestamp);
    assert_eq!(back.size, e.size);
    assert_eq!(back.perms, e.perms);
    assert_eq!(back.hash, e.hash);
    assert_eq!(back.path, e.path);
}

#[test]
fn parse_trims_trailing_newline_from_path() {
    let e = parse_line("NEW\t1\t2\t3\thh\tp/q.txt\n").expect("line with newline");
    assert_eq!(e.path, "p/q.txt");
    let e = parse_line("NEW\t1\t2\t3\thh\tp/q.txt\r\n").expect("line with crlf");
    assert_eq!(e.path, "p/q.txt");
}

#[test]
fn parse_accepts_empty_hash_field() {
    let e = parse_line("ERROR\t0\t0\t0\t\tbroken.bin").expect("empty digest field");
    assert_eq!(e.hash, "");
    assert_eq!(e.status, EntryStatus::Error);
}

#[test]
fn parse_rejects_wrong_field_count() {
    assert!(parse_line("NEW\t1\t2\t3\thh").is_none());
    assert!(parse_line("NEW\t1\t2\t3\thh\tp\textra").is_none());
    assert!(parse_line("").is_none());
    assert!(parse_line("garbage").is_none());
}

#[test]
fn parse_rejects_bad_status_tag() {
    assert!(parse_line("FRESH\t1\t2\t3\thh\tp").is_none());
    assert!(parse_line("new\t1\t2\t3\thh\tp").is_none());
}

#[test]
fn parse_rejects_non_numeric_fields() {
    assert!(parse_line("NEW\tx\t2\t3\thh\tp").is_none());
    assert!(parse_line("NEW\t1\t-2\t3\thh\tp").is_none());
    assert!(parse_line("NEW\t1\t2\t\thh\tp").is_none());
}

#[test]
fn parse_rejects_out_of_range_numbers() {
    // one past u64::MAX
    assert!(parse_line("NEW\t18446744073709551616\t2\t3\thh\tp").is_none());
    // u64::MAX itself is fine for the timestamp
    let e = parse_line("NEW\t18446744073709551615\t2\t3\thh\tp").expect("max timestamp");
    assert_eq!(e.timestamp, u64::MAX);
    // permissions must fit 32 bits
    assert!(parse_line("NEW\t1\t2\t4294967296\thh\tp").is_none());
    let e = parse_line("NEW\t1\t2\t4294967295\thh\tp").expect("max perms");
    assert_eq!(e.perms, u32::MAX);
}

#[test]
fn clone_copies_every_field() {
    let e = sample_entry();
    let c = e.clone();
    assert_eq!(c.status, e.status);
    assert_eq!(c.timestamp, e.timestamp);
    assert_eq!(c.size, e.size);
    assert_eq!(c.perms, e.perms);
    assert_eq!(c.hash, e.hash);
    assert_eq!(c.path, e.path);
}

#[test]
fn digest_hex_matches_known_sha256() {
    let data: Vec<u8> = b"abc".to_vec();
    assert_eq!(
        digest_hex(&data),
        "ba7816bf8f01cfea414140de5dae2223b00361a396177a9cb410ff61f20015ad"
    );
    let empty: Vec<u8> = Vec::new();
    assert_eq!(
        digest_hex(&empty),
        "e3b0c44298fc1c149afbf4c8996fb92427ae41e4649b934ca495991b7852b855"
    );
}

#[test]
fn fill_digest_records_the_content_hash() {
    let mut e = sample_entry();
    e.fill_digest(&b"abc".to_vec());
    assert_eq!(
        e.hash,
        "ba7816bf8f01cfea414140de5dae2223b00361a396177a9cb410ff61f20015ad"
    );
    assert_eq!(e.path, "dir/file.txt");
}

#[test]
fn decimal_fields_round_trip_through_the_line_format() {
    let mut e = sample_entry();
    e.timestamp = 0;
    e.size = u64::MAX;
    e.perms = 0;
    let back = parse_line(&e.to_string()).expect("extreme values read back");
    assert_eq!(back.timestamp, 0);
    assert_eq!(back.size, u64::MAX);
    assert_eq!(back.perms, 0);
}

#[test]
fn parse_accepts_leading_zeros_in_numbers() {
    let e = parse_line("NEW\t007\t0\t0\th\tp").expect("leading zeros");
    assert_eq!(e.timestamp, 7);
}

use bedrock_backup::file_list::{parse_file_list, serialize_file_list, FileEntry};
use bedrock_backup::BackupError;

fn chars(s: &str) -> Vec<char> {
    s.chars().collect()
}

fn string(v: &[char]) -> String {
    v.iter().collect()
}

#[test]
fn parses_example_file_list() {
    let line = chars(" worlds/Bedrock/db/000123.ldb:4096 worlds/Bedrock/level.dat:8192");
    let entries = parse_file_list(&line).unwrap();
    assert_eq!(entries.len(), 2);
    assert_eq!(string(&entries[0].path), "worlds/Bedrock/db/000123.ldb");
    assert_eq!(entries[0].size, 4096);
    assert_eq!(string(&entries[1].path), "worlds/Bedrock/level.dat");
    assert_eq!(entries[1].size, 8192);
}

#[test]
fn empty_input_yields_empty_list() {
    let entries = parse_file_list(&chars("")).unwrap();
    assert_eq!(entries.len(), 0);
}

#[test]
fn token_without_leading_space_is_ignored() {
    let entries = parse_file_list(&chars("a:1")).unwrap();
    assert_eq!(entries.len(), 0);
}

#[test]
fn rightmost_colon_wins() {
    let entries = parse_file_list(&chars(" a:1b:22x")).unwrap();
    assert_eq!(entries.len(), 1);
    assert_eq!(string(&entries[0].path), "a:1b");
    assert_eq!(entries[0].size, 22);
}

#[test]
fn leading_zero_size_does_not_match() {
    let entries = parse_file_list(&chars(" a:0123")).unwrap();
    assert_eq!(entries.len(), 0);
}

#[test]
fn colon_before_leading_zero_still_splits_later() {
    let entries = parse_file_list(&chars(" a:012:34")).unwrap();
    assert_eq!(entries.len(), 1);
    assert_eq!(string(&entries[0].path), "a:012");
    assert_eq!(entries[0].size, 34);
}

#[test]
fn size_overflow_is_a_protocol_violation() {
    let r = parse_file_list(&chars(" big.dat:99999999999999999999"));
    assert_eq!(r.unwrap_err(), BackupError::ProtocolViolation);
}

#[test]
fn max_size_still_fits() {
    let entries = parse_file_list(&chars(" f:18446744073709551615")).unwrap();
    assert_eq!(entries[0].size, u64::MAX);
}

#[test]
fn serializing_no_entries_gives_empty_text() {
    let text = serialize_file_list(&Vec::new());
    assert!(text.is_empty());
}

#[test]
fn serialize_then_parse_round_trips() {
    let entries = vec![
        FileEntry {
            path: chars("worlds/Bedrock/db/CURRENT"),
            size: 16,
        },
        FileEntry {
            path: chars("odd:name:2x"),
            size: 12345,
        },
        FileEntry {
            path: chars("level.dat"),
            size: 1,
        },
    ];
    let text = serialize_file_list(&entries);
    assert_eq!(string(&text), " worlds/Bedrock/db/CURRENT:16 odd:name:2x:12345 level.dat:1");
    let back = parse_file_list(&text).unwrap();
    assert_eq!(back.len(), entries.len());
    for (a, b) in back.iter().zip(entries.iter()) {
        assert_eq!(string(&a.path), string(&b.path));
        assert_eq!(a.size, b.size);
    }
}

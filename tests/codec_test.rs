use probable_fiesta::storage::codec::{
    delete_record, is_clean_key, is_clean_value, parse_records, read_segment, write_record,
};
use probable_fiesta::storage::tree::{LogSegment, TriOption};

#[test]
fn records_are_lines() {
    assert_eq!(write_record("foo", "bar"), "foo bar\n");
    assert_eq!(delete_record("foo"), "foo\n");
    assert_eq!(write_record("k", ""), "k \n");
}

#[test]
fn parse_reads_writes_and_deletions_in_order() {
    let recs = parse_records("a 1\nb\na 2\n").unwrap();
    assert_eq!(
        recs,
        vec![
            ("a".to_string(), Some("1".to_string())),
            ("b".to_string(), None),
            ("a".to_string(), Some("2".to_string())),
        ]
    );
}

#[test]
fn parse_takes_a_last_line_without_newline() {
    let recs = parse_records("a 1\nb").unwrap();
    assert_eq!(recs, vec![("a".to_string(), Some("1".to_string())), ("b".to_string(), None)]);
    assert_eq!(parse_records("").unwrap(), vec![]);
}

#[test]
fn parse_rejects_malformed_lines() {
    assert!(parse_records("a 1\n\nb 2\n").is_none());
    assert!(parse_records("a 1 2\n").is_none());
    assert!(parse_records(" 1\n").is_none());
    assert!(parse_records("\n").is_none());
}

#[test]
fn clean_keys_and_values() {
    assert!(is_clean_key("foo"));
    assert!(!is_clean_key(""));
    assert!(!is_clean_key("a b"));
    assert!(!is_clean_key("a\nb"));
    assert!(is_clean_value(""));
    assert!(!is_clean_value("x y"));
}

#[test]
fn segment_round_trip() {
    let mut tree = LogSegment::new();
    tree.insert(("k2".to_string(), "v2".to_string()));
    tree.insert(("k1".to_string(), "v1".to_string()));
    tree.delete("k0".to_string());
    let text = tree.serialize();
    assert_eq!(text, "k0\nk1 v1\nk2 v2\n");
    let back = read_segment(&text).unwrap();
    assert!(matches!(back.get("k1".to_string()), TriOption::TriSome(v) if v == "v1"));
    assert!(matches!(back.get("k2".to_string()), TriOption::TriSome(v) if v == "v2"));
    assert!(matches!(back.get("k0".to_string()), TriOption::Tombstoned));
    assert!(matches!(back.get("k3".to_string()), TriOption::TriNone));
    assert!(read_segment("k0\n\n").is_none());
}

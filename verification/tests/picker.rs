//! The commit picker.
use differential::gitio::parse_rev_list;

#[test]
fn picker_parses_nul_separated_records() {
    let raw = b"aaaa\0a1\0fix the thing\0Alice\nbbbb\0b2\0subject with \xe2\x9c\x93 unicode\0B\xc3\xb6b\n";
    let entries = parse_rev_list(raw);
    assert_eq!(entries.len(), 2);
    assert_eq!(entries[0].sha, "aaaa");
    assert_eq!(entries[0].short, "a1");
    assert_eq!(entries[0].subject, "fix the thing");
    assert_eq!(entries[0].author, "Alice");
    assert_eq!(entries[1].subject, "subject with ✓ unicode");
    assert_eq!(entries[1].author, "Böb");
}

#[test]
fn picker_tolerates_empty_and_malformed_lines() {
    assert!(parse_rev_list(b"").is_empty());
    assert!(parse_rev_list(b"\n\n").is_empty());
    assert!(parse_rev_list(b"only-two\0fields\n").is_empty());
}

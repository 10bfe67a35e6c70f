//! What git printed, read.
use differential::gitio::{parse_refs, parse_rev_list};

#[test]
fn gitio_parses_nul_separated_records() {
    let raw = b"aaaa\0a1\0fix the thing\0Alice\nbbbb\0b2\0subject with \xe2\x9c\x93 unicode\0B\xc3\xb6b\n";
    let entries = parse_rev_list(raw);
    assert_eq!(entries.len(), 2);
    assert_eq!(entries[0].sha, "aaaa");
    assert_eq!(entries[0].short, "a1");
    assert_eq!(entries[0].subject, "fix the thing");
    assert_eq!(entries[0].author, "Alice");
    assert_eq!(entries[1].subject, "subject with ✓ unicode");
    assert_eq!(entries[1].author, "Böb");
}

#[test]
fn gitio_tolerates_empty_and_malformed_lines() {
    assert!(parse_rev_list(b"").is_empty());
    assert!(parse_rev_list(b"\n\n").is_empty());
    assert!(parse_rev_list(b"only-two\0fields\n").is_empty());
}

#[test]
fn refs_group_by_commit_and_peel_annotated_tags() {
    // Lightweight ref: own oid is the commit. Annotated tag: the peeled
    // field carries the commit.
    let raw = b"aaaa\0\0main\naaaa\0\0origin/main\ntagobj\0aaaa\0v1.0\nbbbb\0\0feature\n";
    let refs = parse_refs(raw);
    assert_eq!(
        refs.get("aaaa").unwrap(),
        &vec![
            "main".to_string(),
            "origin/main".to_string(),
            "v1.0".to_string()
        ]
    );
    assert_eq!(refs.get("bbbb").unwrap(), &vec!["feature".to_string()]);
    // The tag object's own id is never a key.
    assert!(!refs.contains_key("tagobj"));
}

#[test]
fn refs_tolerate_junk() {
    assert!(parse_refs(b"").is_empty());
    assert!(parse_refs(b"\n\n").is_empty());
    assert!(parse_refs(b"two\0fields\n").is_empty());
    // An empty ref name is skipped rather than stored.
    assert!(parse_refs(b"aaaa\0\0\n").is_empty());
}

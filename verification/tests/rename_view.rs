//! The raw and rename listings.
use differential::model::{DiffView, Disposition, FileChange};
use differential::rename_view::{
    merge_raw, merge_renames, parse_raw_z, parse_renames_z, RenamePair,
};
use differential::EngineError;

#[test]
fn raw_records_parse() {
    let raw = b":100644 100755 aaaaaaaaaaaaaaaaaaaaaaaaaaaaaaaaaaaaaaaa bbbbbbbbbbbbbbbbbbbbbbbbbbbbbbbbbbbbbbbb M\0tools/run.sh\0:000000 100644 0000000000000000000000000000000000000000 cccccccccccccccccccccccccccccccccccccccc A\0new.txt\0";
    let rs = parse_raw_z(raw).unwrap();
    assert_eq!(rs.len(), 2);
    assert_eq!(rs[0].status, b'M');
    assert_eq!(rs[0].new_mode, "100755");
    assert_eq!(rs[1].status, b'A');
    assert_eq!(rs[1].path, b"new.txt");
}

#[test]
fn rename_records_parse_with_scores() {
    let raw =
        b"R062\0src/lexer.rs\0src/token/lexer.rs\0M\0src/main.rs\0R100\0old.txt\0new.txt\0";
    let rs = parse_renames_z(raw).unwrap();
    assert_eq!(
        rs,
        vec![
            RenamePair {
                old_path: b"src/lexer.rs".to_vec(),
                new_path: b"src/token/lexer.rs".to_vec(),
                similarity: 62
            },
            RenamePair {
                old_path: b"old.txt".to_vec(),
                new_path: b"new.txt".to_vec(),
                similarity: 100
            },
        ]
    );
}

fn pair(old: &[u8], new: &[u8], similarity: u8) -> RenamePair {
    RenamePair { old_path: old.to_vec(), new_path: new.to_vec(), similarity }
}

#[test]
fn a_copy_is_no_rename() {
    assert_eq!(parse_renames_z(b"C075\0a\0b\0R100\0c\0d\0"), Ok(vec![pair(b"c", b"d", 100)]));
    assert_eq!(parse_renames_z(b"C075\0a\0b\0"), Ok(vec![]));
}

#[test]
fn a_listing_of_renames_must_be_whole() {
    let fault = |msg: &str| Err(EngineError::Parse { line: 0, msg: msg.to_string() });
    assert_eq!(parse_renames_z(b"Rx\0a\0b\0"), fault("unparseable rename score: Rx"));
    assert_eq!(parse_renames_z(b"R100\0a"), fault("rename record missing path"));
    assert_eq!(parse_renames_z(b"C100\0a"), fault("rename record missing path"));
    assert_eq!(parse_renames_z(b"M"), fault("rename record missing path"));
}

fn change(path: &str) -> FileChange {
    FileChange {
        path: path.as_bytes().to_vec(),
        disposition: Disposition::Modified,
        new_mode: None,
        old_mode: None,
        binary: true,
        submodule: Some((None, Some("c".into()))),
        old_oid: None,
        new_oid: None,
        hunks: vec![],
        rename_similarity: None,
        rename_from: None,
        rename_to: None,
        generated: None,
    }
}

#[test]
fn a_hole_leaves_the_marks_of_the_patch_alone() {
    let raw = format!(":100644 100644 {} {} D\0a\0", "a".repeat(40), "0".repeat(40));
    let records = parse_raw_z(raw.as_bytes()).unwrap();
    let mut view = DiffView { files: vec![change("a"), change("b")], hunks: vec![] };
    assert_eq!(
        merge_raw(&mut view, &records),
        Err(EngineError::Invariant(
            "file b present in patch but missing from raw records".into()
        ))
    );
    for f in &view.files {
        assert!(f.binary);
        assert_eq!(f.submodule, Some((None, Some("c".to_string()))));
        assert_eq!(f.rename_from, None);
    }
    assert_eq!(view.files[0].disposition, Disposition::Deleted);
    merge_renames(&mut view, &[pair(b"a", b"z", 90)]);
    assert_eq!(view.files[0].rename_to, Some(b"z".to_vec()));
    assert_eq!(view.files[0].rename_similarity, Some(90));
}

//! The canonical patch, and the view that git's three listings make.
use differential::invariants::{dumb_hunk_count, fitting_hunks, reconstruct};
use differential::model::Disposition;
use differential::parse::parse_canonical;
use differential::plan::enumerate::{build_view, Enumeration};
use differential::rename_view::{merge_raw, parse_raw_z, parse_renames_z};
use differential::EngineError;

#[test]
fn an_empty_patch_is_an_empty_view() {
    let v = parse_canonical(b"").unwrap();
    assert!(v.files.is_empty() && v.hunks.is_empty());
}

#[test]
fn a_modified_file_keeps_its_hunks_in_order() {
    let patch = b"diff --git a/f b/f\nindex 1..2 100644\n--- a/f\n+++ b/f\n\
        @@ -1,2 +1 @@ fn main()\n-a\n-b\n+c\n@@ -9,0 +9,2 @@\n+x\n+y\n";
    let v = parse_canonical(patch).unwrap();
    assert_eq!(v.files.len(), 1);
    assert_eq!(v.files[0].path, b"f");
    assert_eq!(v.files[0].disposition, Disposition::Modified);
    assert_eq!(v.files[0].hunks, vec![0, 1]);
    let h = &v.hunks[0];
    assert_eq!((h.old_start, h.old_count, h.new_start, h.new_count), (1, 2, 1, 1));
    assert_eq!(h.removed, vec![b"a".to_vec(), b"b".to_vec()]);
    assert_eq!(h.added, vec![b"c".to_vec()]);
    let h = &v.hunks[1];
    assert_eq!((h.old_start, h.old_count, h.new_start, h.new_count), (9, 0, 9, 2));
    assert!(h.removed.is_empty());
    assert_eq!(v.hunks.len(), dumb_hunk_count(patch));
}

#[test]
fn content_that_looks_like_a_header_is_content() {
    let patch = b"diff --git a/f b/f\n--- a/f\n+++ b/f\n@@ -1 +1,2 @@\n-@@ -9 +9 @@\n+diff --git a/x b/x\n+@@ -5,5 +5,5 @@\n";
    let v = parse_canonical(patch).unwrap();
    assert_eq!(v.files.len(), 1);
    assert_eq!(v.hunks.len(), 1);
    assert_eq!(v.hunks[0].added[0], b"diff --git a/x b/x");
    assert_eq!(v.hunks.len(), dumb_hunk_count(patch));
}

#[test]
fn missing_newlines_are_kept_per_side() {
    let patch = b"diff --git a/f b/f\n@@ -1 +1 @@\n-a\n\\ No newline at end of file\n+b\n";
    let h = &parse_canonical(patch).unwrap().hunks[0];
    assert!(h.nonl_old && !h.nonl_new);
    let patch = b"diff --git a/f b/f\n@@ -1 +1 @@\n-a\n+b\n\\ No newline at end of file\n";
    let h = &parse_canonical(patch).unwrap().hunks[0];
    assert!(!h.nonl_old && h.nonl_new);
}

#[test]
fn headers_say_what_became_of_a_file() {
    let patch = b"diff --git a/new b/new\nnew file mode 100644\nindex 0..1\n@@ -0,0 +1 @@\n+a\n\
        diff --git a/gone b/gone\ndeleted file mode 100644\nindex 1..0\n@@ -1 +0,0 @@\n-a\n\
        diff --git a/pic b/pic\nindex 1..2 100644\nBinary files a/pic and b/pic differ\n\
        diff --git a/run b/run\nold mode 100644\nnew mode 100755\n\
        diff --git a/sub b/sub\nindex 1..2 160000\n@@ -1 +1 @@\n-Subproject commit aaa\n+Subproject commit bbb\n";
    let v = parse_canonical(patch).unwrap();
    assert_eq!(v.files[0].disposition, Disposition::Added);
    assert_eq!(v.files[1].disposition, Disposition::Deleted);
    assert!(v.files[2].binary && v.files[2].hunks.is_empty());
    assert_eq!(v.files[3].old_mode.as_deref(), Some("100644"));
    assert_eq!(v.files[4].submodule, Some((Some("aaa".into()), Some("bbb".into()))));
    assert_eq!(v.files[4].hunks, vec![2]);
    assert_eq!(v.hunks[2].file, 4);
}

#[test]
fn the_first_line_that_cannot_be_read_is_named() {
    for (patch, at) in [
        (&b"garbage\n"[..], 1),
        (b"diff --git a/one b/two\n", 1),
        (b"diff --git a/f b/f\n@@ -1 +1 @\n", 2),
        (b"diff --git a/f b/f\n@@ -1,2 +1 @@\n-a\n+b\n", 2),
        (b"diff --git a/f b/f\n@@ -1 +1,2 @@\n-a\n+b\n", 2),
        (b"diff --git a/f b/f\n@@ -1 +1 @@\n-a\n+b\n context\n", 5),
        (b"diff --git a/f b/f\n@@ -99999999999 +1 @@\n", 2),
    ] {
        match parse_canonical(patch) {
            Err(EngineError::Parse { line, .. }) => {
                assert_eq!(line, at, "{}", String::from_utf8_lossy(patch))
            }
            other => panic!("expected an error, got {other:?}"),
        }
    }
}

#[test]
fn malformed_listings_are_errors() {
    assert!(parse_raw_z(b"100644 no colon M\0f\0").is_err());
    assert!(parse_raw_z(b":100644 100644 a b M").is_err());
    assert!(parse_renames_z(b"R100\0only-one").is_err());
    assert!(parse_renames_z(b"Rxx\0a\0b\0").is_err());
    assert!(parse_raw_z(b"").unwrap().is_empty());
    assert!(parse_renames_z(b"").unwrap().is_empty());
}

#[test]
fn a_record_without_a_header_is_refused() {
    let mut view = parse_canonical(b"diff --git a/f b/f\n@@ -1 +1 @@\n-a\n+b\n").unwrap();
    let oid = |c: &str| c.repeat(40);
    let raw = format!(":100644 100644 {} {} M\0other\0", oid("a"), oid("b"));
    let records = parse_raw_z(raw.as_bytes()).unwrap();
    assert!(merge_raw(&mut view, &records).is_err());
}

#[test]
fn the_listings_are_merged_into_one_view() {
    let oid = |c: &str| c.repeat(40);
    let zero = oid("0");
    let raw = format!(
        ":100644 000000 {a} {zero} D\0old.rs\0:000000 100755 {zero} {b} A\0new.rs\0",
        a = oid("a"),
        b = oid("b")
    );
    let patch = b"diff --git a/old.rs b/old.rs\ndeleted file mode 100644\n@@ -1 +0,0 @@\n-a\n\
        diff --git a/new.rs b/new.rs\nnew file mode 100755\n@@ -0,0 +1 @@\n+b\n";
    let v = build_view(&Enumeration {
        raw_records: raw.as_bytes(),
        canonical_patch: patch,
        rename_records: b"R062\0old.rs\0new.rs\0",
    })
    .unwrap();
    let new = v.files.iter().find(|f| f.path == b"new.rs").unwrap();
    assert_eq!(new.new_mode.as_deref(), Some("100755"));
    assert_eq!(new.new_oid, Some(oid("b")));
    assert_eq!(new.rename_similarity, Some(62));
    assert_eq!(new.rename_from.as_deref(), Some(&b"old.rs"[..]));
    let old = v.files.iter().find(|f| f.path == b"old.rs").unwrap();
    assert_eq!(old.rename_to.as_deref(), Some(&b"new.rs"[..]));
    assert_eq!(old.disposition, Disposition::Deleted);
}

#[test]
fn a_path_that_changes_what_it_is_is_one_file() {
    let oid = |c: &str| c.repeat(40);
    let raw = format!(":100644 120000 {} {} T\0link\0", oid("a"), oid("b"));
    let patch = b"diff --git a/link b/link\ndeleted file mode 100644\n@@ -1,2 +0,0 @@\n\
        -real\n-content\n\
        diff --git a/link b/link\nnew file mode 120000\n@@ -0,0 +1 @@\n+target\n\
        \\ No newline at end of file\n";
    let v = build_view(&Enumeration {
        raw_records: raw.as_bytes(),
        canonical_patch: patch,
        rename_records: b"",
    })
    .unwrap();
    assert_eq!(v.files.len(), 1);
    assert_eq!(v.files[0].disposition, Disposition::Modified);
    assert_eq!(v.files[0].hunks, [0, 1]);
    assert_eq!(v.hunks.len(), 2);
    assert_eq!(v.files[0].old_mode.as_deref(), Some("100644"));
    assert_eq!(v.files[0].new_mode.as_deref(), Some("120000"));
    let base = Some(b"real\ncontent\n".to_vec());
    assert!(fitting_hunks(&v, &v.files[0], &base).is_some());
    assert_eq!(reconstruct(&v, &v.files[0], &base), b"target");
}

#[test]
fn rename_records_only_annotate() {
    let oid = |c: &str| c.repeat(40);
    let zero = oid("0");
    let raw = format!(
        ":100644 000000 {a} {zero} D\0old.rs\0:000000 100644 {zero} {b} A\0new.rs\0",
        a = oid("a"),
        b = oid("b")
    );
    let patch = b"diff --git a/old.rs b/old.rs\ndeleted file mode 100644\n@@ -1 +0,0 @@\n-a\n\
        diff --git a/new.rs b/new.rs\nnew file mode 100644\n@@ -0,0 +1 @@\n+b\n";
    let view = |renames: &[u8]| {
        build_view(&Enumeration {
            raw_records: raw.as_bytes(),
            canonical_patch: patch,
            rename_records: renames,
        })
        .unwrap()
    };
    let bare = view(b"");
    let noted = view(b"R062\0old.rs\0new.rs\0");
    // Every record is a file, under its own path, whatever moved.
    let paths: Vec<&[u8]> = bare.files.iter().map(|f| f.path.as_slice()).collect();
    assert_eq!(paths, [&b"old.rs"[..], &b"new.rs"[..]]);
    assert_eq!(format!("{:?}", noted.hunks), format!("{:?}", bare.hunks));
    assert_eq!(noted.files.len(), bare.files.len());
    for (with, without) in noted.files.iter().zip(&bare.files) {
        assert_eq!(with.path, without.path);
        assert_eq!(with.disposition, without.disposition);
        assert_eq!(with.hunks, without.hunks);
        assert_eq!(with.new_oid, without.new_oid);
        assert_eq!(without.rename_similarity, None);
        assert_eq!(with.rename_similarity, Some(62));
    }
}

//! Byte-exact application of hunks.
use differential::apply::apply_hunks;
use differential::model::Hunk;

fn hunk(os: u32, oc: u32, ns: u32, nc: u32, add: &[&[u8]], nonl_new: bool) -> Hunk {
    Hunk {
        file: 0,
        old_start: os,
        old_count: oc,
        new_start: ns,
        new_count: nc,
        removed: vec![],
        added: add.iter().map(|l| l.to_vec()).collect(),
        nonl_old: false,
        nonl_new,
    }
}

#[test]
fn created_file_with_trailing_newline() {
    let h = hunk(0, 0, 1, 2, &[b"a", b"b"], false);
    assert_eq!(apply_hunks(None, &[&h]), b"a\nb\n");
}

#[test]
fn created_file_without_trailing_newline() {
    let h = hunk(0, 0, 1, 2, &[b"a", b"b"], true);
    assert_eq!(apply_hunks(None, &[&h]), b"a\nb");
}

#[test]
fn replace_middle_line() {
    let h = hunk(2, 1, 2, 1, &[b"B"], false);
    assert_eq!(apply_hunks(Some(&b"a\nb\nc\n"[..]), &[&h]), b"a\nB\nc\n");
}

#[test]
fn insert_at_top_of_file() {
    // @@ -0,0 +1,1 @@ — insertion before line 1.
    let h = hunk(0, 0, 1, 1, &[b"first"], false);
    assert_eq!(apply_hunks(Some(&b"a\n"[..]), &[&h]), b"first\na\n");
}

#[test]
fn delete_to_empty_file() {
    let h = hunk(1, 2, 0, 0, &[], false);
    assert_eq!(apply_hunks(Some(&b"a\nb\n"[..]), &[&h]), b"");
}

#[test]
fn whole_file_delete_of_nonl_file() {
    // Base has no trailing newline; deleting everything must still be b"".
    // Real git marks the old side: `-only` + `\ No newline at end of file`.
    let mut h = hunk(1, 1, 0, 0, &[], false);
    h.nonl_old = true;
    assert_eq!(apply_hunks(Some(&b"only"[..]), &[&h]), b"");
}

#[test]
fn delete_final_nonl_line_restores_trailing_newline() {
    // Base "a\nlast" (no final newline); deleting `last` leaves "a\n".
    let mut h = hunk(2, 1, 1, 0, &[], false);
    h.nonl_old = true;
    assert_eq!(apply_hunks(Some(&b"a\nlast"[..]), &[&h]), b"a\n");
}

#[test]
fn newline_removed_from_final_line() {
    // -last / +last with nonl_new: content identical, exactly 1 byte shorter.
    let mut h = hunk(2, 1, 2, 1, &[b"last"], true);
    h.removed = vec![b"last".to_vec()];
    assert_eq!(apply_hunks(Some(&b"a\nlast\n"[..]), &[&h]), b"a\nlast");
}

#[test]
fn newline_added_to_final_line() {
    // `-last` + marker, `+last` without: the edit adds exactly one byte.
    let mut h = hunk(2, 1, 2, 1, &[b"last"], false);
    h.nonl_old = true;
    assert_eq!(apply_hunks(Some(&b"a\nlast"[..]), &[&h]), b"a\nlast\n");
}

#[test]
fn multiple_disjoint_hunks_apply_in_order_regardless_of_input_order() {
    let h1 = hunk(1, 1, 1, 1, &[b"A"], false);
    let h2 = hunk(3, 1, 3, 1, &[b"C"], false);
    let base = &b"a\nb\nc\n"[..];
    assert_eq!(apply_hunks(Some(base), &[&h2, &h1]), b"A\nb\nC\n");
}

#[test]
fn crlf_is_byte_faithful() {
    let h = hunk(1, 1, 1, 1, &[b"new\r"], false);
    assert_eq!(
        apply_hunks(Some(&b"old\r\nkeep\r\n"[..]), &[&h]),
        b"new\r\nkeep\r\n"
    );
}

#[test]
fn typechange_delete_plus_create_on_same_base() {
    let del = hunk(1, 2, 0, 0, &[], false);
    let mut create = hunk(0, 0, 1, 1, &[b"target"], true);
    create.nonl_new = true;
    assert_eq!(
        apply_hunks(Some(&b"real\ncontent\n"[..]), &[&del, &create]),
        b"target"
    );
}

//! The structural audits.
use differential::invariants::{
    check_accounting, dumb_hunk_count, fidelity, may_build_tree, Fidelity, InvariantReport,
    TreeReport,
};
use differential::model::{DiffView, Disposition, FileChange, Hunk};

fn hunk(file: usize) -> Hunk {
    Hunk {
        file,
        old_start: 1,
        old_count: 1,
        new_start: 1,
        new_count: 1,
        removed: vec![],
        added: vec![],
        nonl_old: false,
        nonl_new: false,
    }
}

fn file(hunks: Vec<usize>) -> FileChange {
    FileChange {
        path: b"f".to_vec(),
        disposition: Disposition::Modified,
        new_mode: Some("100644".into()),
        old_mode: None,
        binary: false,
        submodule: None,
        old_oid: None,
        new_oid: None,
        hunks,
        rename_similarity: None,
        rename_from: None,
        rename_to: None,
        generated: None,
    }
}

#[test]
fn accounting_holds_when_every_hunk_belongs_to_exactly_one_file() {
    let view = DiffView {
        files: vec![file(vec![0, 1]), file(vec![2])],
        hunks: vec![hunk(0), hunk(0), hunk(1)],
    };
    assert!(check_accounting(&view));
}

#[test]
fn accounting_catches_a_hunk_claimed_twice() {
    let view = DiffView {
        files: vec![file(vec![0]), file(vec![0])],
        hunks: vec![hunk(0)],
    };
    assert!(!check_accounting(&view), "one hunk in two files");
}

#[test]
fn accounting_catches_a_hunk_no_file_claims() {
    let view = DiffView {
        files: vec![file(vec![0])],
        hunks: vec![hunk(0), hunk(0)],
    };
    assert!(!check_accounting(&view), "h1 is carried by nothing");
}

#[test]
fn accounting_catches_a_file_claiming_another_files_hunk() {
    // The disagreement that matters: the file lists it, the hunk denies it.
    let view = DiffView {
        files: vec![file(vec![0]), file(vec![1])],
        hunks: vec![hunk(0), hunk(0)],
    };
    assert!(!check_accounting(&view));
}

#[test]
fn accounting_catches_an_out_of_range_index() {
    let view = DiffView {
        files: vec![file(vec![7])],
        hunks: vec![hunk(0)],
    };
    assert!(!check_accounting(&view));
}

#[test]
fn binary_and_submodule_files_are_verified_differently_from_text() {
    let mut f = file(vec![]);
    assert_eq!(fidelity(&f), Fidelity::Reconstruct);

    f.binary = true;
    f.new_oid = Some("abc".into());
    assert_eq!(fidelity(&f), Fidelity::ByOid("abc"));

    f.new_oid = None;
    assert_eq!(fidelity(&f), Fidelity::NoOid);

    f.binary = false;
    f.submodule = Some((None, Some("s".into())));
    assert_eq!(fidelity(&f), Fidelity::Skip);
}

fn report(applier_total: usize, applier_ok: usize, mismatches: Vec<String>) -> InvariantReport {
    InvariantReport {
        files_total: applier_total,
        applier_total,
        applier_ok,
        applier_mismatches: mismatches,
        binary_oid_checked: 0,
        hunks_total: 0,
        accounting_ok: true,
        tree: None,
    }
}

/// A tree built on a broken applier would assert nothing, so it is not built at all.
#[test]
fn a_broken_applier_stops_the_tree_from_being_built() {
    assert!(may_build_tree(&report(3, 3, vec![])));
    assert!(!may_build_tree(&report(3, 2, vec![])));
    assert!(!may_build_tree(&report(
        3,
        3,
        vec!["f: mismatch".to_string()]
    )));
}

/// `all_ok` must not read a missing tree half as a pass.
#[test]
fn an_unverified_report_is_not_all_ok() {
    let r = report(3, 3, vec![]);
    assert!(r.fidelity_ok(), "invariants 1 and 2 passed");
    assert!(!r.all_ok(), "invariants 3 and 4 never ran");
}

#[test]
fn a_verified_report_is_all_ok_only_when_both_halves_pass() {
    let mut r = report(3, 3, vec![]);
    r.tree = Some(TreeReport {
        built_tree: Some("t".into()),
        head_tree: "t".into(),
        tree_ok: true,
        recount: 0,
        recount_ok: true,
    });
    assert!(r.all_ok());
    r.tree.as_mut().unwrap().recount_ok = false;
    assert!(!r.all_ok(), "invariant 4 failed");
    assert!(r.fidelity_ok(), "but 1 and 2 still hold");
}

#[test]
fn dumb_counter_counts_headers_only() {
    let patch = b"diff --git a/f b/f\n@@ -1,2 +1,2 @@\n-a\n+b\n@@ -9 +9 @@\n-x\n+y\n";
    assert_eq!(dumb_hunk_count(patch), 2);
}

#[test]
fn dumb_counter_ignores_content_lines_that_mention_hunks() {
    // An added line whose content starts with "@@ -" gets a "+" prefix in
    // the patch, so it cannot collide.
    let patch = b"@@ -1,0 +1,1 @@\n+@@ -5,5 +5,5 @@\n";
    assert_eq!(dumb_hunk_count(patch), 1);
}

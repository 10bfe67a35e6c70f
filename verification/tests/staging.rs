//! How a file is staged.
use differential::model::{Disposition, FileChange};
use differential::plan::staging::{cumulative_state, final_state, Staged};

fn file(disposition: Disposition) -> FileChange {
    FileChange {
        path: b"src/a.rs".to_vec(),
        disposition,
        new_mode: Some("100644".into()),
        old_mode: None,
        binary: false,
        submodule: None,
        old_oid: None,
        new_oid: None,
        hunks: vec![0, 1],
        rename_similarity: None,
        rename_from: None,
        rename_to: None,
        generated: None,
    }
}

#[test]
fn text_files_are_always_rebuilt_from_hunks() {
    // The whole tree assertion rests on this never becoming a copy.
    let f = file(Disposition::Modified);
    assert_eq!(final_state(&f).unwrap(), Staged::Apply { mode: "100644" });
    assert_eq!(
        cumulative_state(&f, 1).unwrap(),
        Staged::Apply { mode: "100644" }
    );
}

#[test]
fn binary_files_stage_their_recorded_oid() {
    let mut f = file(Disposition::Modified);
    f.binary = true;
    f.hunks.clear();
    f.new_oid = Some("deadbeef".into());
    assert_eq!(
        final_state(&f).unwrap(),
        Staged::Recorded {
            mode: "100644",
            oid: "deadbeef"
        }
    );
}

#[test]
fn a_binary_file_without_an_oid_is_an_invariant_failure_not_an_empty_blob() {
    let mut f = file(Disposition::Modified);
    f.binary = true;
    let err = final_state(&f).unwrap_err().message();
    assert!(err.contains("binary file"), "{err}");
    assert!(err.contains("src/a.rs"), "{err}");
}

#[test]
fn submodules_stage_the_gitlink_commit_id() {
    let mut f = file(Disposition::Modified);
    f.submodule = Some((Some("old".into()), Some("new".into())));
    f.new_mode = Some("160000".into());
    assert_eq!(
        final_state(&f).unwrap(),
        Staged::Recorded {
            mode: "160000",
            oid: "new"
        }
    );
    // The stack does not need the mode recorded: a gitlink's is a constant.
    f.new_mode = None;
    assert_eq!(
        cumulative_state(&f, 0).unwrap(),
        Staged::Recorded {
            mode: "160000",
            oid: "new"
        }
    );
}

/// The difference between the two rules that actually matters: a deletion
/// mid-series still carries hunks, so removing it early would lose them.
#[test]
fn a_deletion_is_removed_only_once_every_hunk_has_been_applied() {
    let f = file(Disposition::Deleted);
    assert_eq!(final_state(&f).unwrap(), Staged::Remove);

    assert_eq!(
        cumulative_state(&f, 1).unwrap(),
        Staged::Apply { mode: "100644" },
        "one of two hunks applied: the file must still exist"
    );
    assert_eq!(cumulative_state(&f, 2).unwrap(), Staged::Remove);
}

#[test]
fn the_stack_falls_back_to_the_old_mode_the_core_does_not() {
    let mut f = file(Disposition::Modified);
    f.new_mode = None;
    f.old_mode = Some("100755".into());

    assert_eq!(
        cumulative_state(&f, 0).unwrap(),
        Staged::Apply { mode: "100755" },
        "a partially built file may not have reached its mode change yet"
    );
    assert!(
        final_state(&f)
            .unwrap_err()
            .message()
            .contains("new mode"),
        "the final state has no excuse for a missing new mode"
    );
}

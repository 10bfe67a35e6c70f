//! The projection of a document.
use differential::plan::identity::class_content_key;
use differential::plan::ids::HunkId;
use differential::plan::view::{Dependency, ReviewView};
use differential::plan::LineCounts;
use differential::schema::{
    Audit, ClassEntry, Disposition, Effort, FileEntry, ForgePosition, Generator, Group, HunkEntry,
    PlanDocument, Source, SourceKind, Stats,
};

/// A document with these classes (id, members, exemplar) and files (path, hunks). Each
/// hunk lies in a file of its own, adds two lines and removes one.
fn doc_with(classes: &[(&str, &[&str], &str)], files: &[(&str, &[&str])]) -> PlanDocument {
    let mut top = 0usize;
    for (_, members, _) in classes {
        for m in *members {
            top = top.max(m[1..].parse::<usize>().unwrap() + 1);
        }
    }
    PlanDocument {
        schema_version: 1,
        generator: Generator { tool: "t".into(), version: "0".into(), stages: vec![] },
        source: Source {
            kind: SourceKind::Range,
            base: "b".into(),
            head: "h".into(),
            remote: None,
        },
        stats: Stats { files: 0, hunks: 0, classes: 0, binary_files: 0, submodules: 0 },
        files: files
            .iter()
            .map(|(path, hunks)| FileEntry {
                path: path.to_string(),
                disposition: Disposition::M,
                mode: None,
                old_mode: None,
                old_path: None,
                new_path: None,
                rename_similarity: None,
                binary: false,
                submodule: None,
                generated: false,
                generated_by: None,
                hunk_ids: hunks.iter().map(|h| h.to_string()).collect(),
            })
            .collect(),
        hunks: (0..top)
            .map(|n| HunkEntry {
                id: format!("h{n}"),
                file: format!("src/f{n}.rs"),
                old_start: 1,
                old_count: 1,
                new_start: 1,
                new_count: 2,
                class: classes
                    .iter()
                    .find(|(_, members, _)| members.contains(&format!("h{n}").as_str()))
                    .map_or("C0", |(id, _, _)| id)
                    .to_string(),
                digest: format!("digest{n}"),
                nonl_old: false,
                nonl_new: false,
                forge_position: ForgePosition { new_line: Some(1), old_line: Some(1) },
            })
            .collect(),
        classes: classes
            .iter()
            .map(|(id, members, exemplar)| ClassEntry {
                id: id.to_string(),
                hunk_ids: members.iter().map(|m| m.to_string()).collect(),
                exemplar: exemplar.to_string(),
                pure_substitution: false,
                defines: vec![],
                depends_on: vec![],
            })
            .collect(),
        groups: None,
        reading_plan: None,
        audit: Audit {
            applier_exact: "0/0".into(),
            tree_assertion: "pass".into(),
            hunks_carried: 0,
            recount: 0,
            coverage: None,
            classes_missing: None,
            classes_duplicated: None,
            classes_hallucinated: None,
            read_hunks: None,
            skipped_hunks: None,
        },
    }
}

fn group(id: &str, effort: Effort, classes: &[&str]) -> Group {
    Group {
        id: id.to_string(),
        label: format!("{id} label"),
        description: String::new(),
        reason: String::new(),
        effort,
        role: None,
        class_ids: classes.iter().map(|c| c.to_string()).collect(),
        depends_on: vec![],
        rank: 0,
    }
}

fn hunk_ids(hunks: &[HunkId]) -> Vec<String> {
    hunks.iter().map(|h| h.to_string()).collect()
}

fn two_group_doc() -> PlanDocument {
    let mut doc = doc_with(
        &[("C0", &["h0", "h1"], "h0"), ("C1", &["h2"], "h2")],
        &[("src/a.rs", &["h0", "h1"]), ("src/b.rs", &["h2"])],
    );
    doc.groups = Some(vec![
        group("g0", Effort::Focus, &["C0"]),
        group("g1", Effort::Skim, &["C1"]),
    ]);
    doc
}

#[test]
fn groups_carry_their_totals_and_distinct_file_count() {
    let doc = two_group_doc();
    let view = ReviewView::project(&doc).unwrap();

    assert_eq!(hunk_ids(&view.groups[0].hunks), ["h0", "h1"]);
    assert_eq!(
        view.groups[0].n_files, 2,
        "the fixture puts each hunk in its own file"
    );
    // The fixture's hunks are +2/-1 each.
    assert_eq!(view.groups[0].counts, LineCounts { adds: 4, dels: 2 });
    assert_eq!(view.files[0].counts, LineCounts { adds: 4, dels: 2 });
}

#[test]
fn reviewed_keys_are_a_pure_function_of_the_documents_digests() {
    let doc = two_group_doc();
    let view = ReviewView::project(&doc).unwrap();

    let expected = class_content_key(&vec!["digest0".into(), "digest1".into()]);
    assert_eq!(view.class_key("C0"), expected);
    assert_eq!(view.hunk_key(HunkId::from_index(0)), expected);
    assert_eq!(view.hunk_key(HunkId::from_index(1)), expected);
    assert_ne!(view.class_key("C1"), expected);
}

#[test]
fn a_dependency_listed_later_is_flagged_unsatisfied() {
    let mut doc = two_group_doc();
    // g0 (rank 0) depends on g1 (rank 1): the order could not honour it.
    doc.groups.as_mut().unwrap()[0].depends_on = vec!["g1".into()];
    doc.groups.as_mut().unwrap()[1].depends_on = vec!["g0".into()];
    let view = ReviewView::project(&doc).unwrap();

    assert_eq!(
        view.groups[0].depends_on,
        [Dependency {
            id: "g1".into(),
            label: "g1 label".into(),
            unsatisfied: true
        }]
    );
    assert!(
        !view.groups[1].depends_on[0].unsatisfied,
        "a dependency earlier in the plan is honoured"
    );
}

#[test]
fn hunks_resolve_to_their_owning_group_and_their_digest() {
    let doc = two_group_doc();
    let view = ReviewView::project(&doc).unwrap();

    assert_eq!(view.group_of_hunk(HunkId::from_index(1)).unwrap().id, "g0");
    assert_eq!(view.hunk_by_digest("digest2"), Some(HunkId::from_index(2)));
    assert_eq!(view.hunk_by_digest("nope"), None);
}

/// One flag, so a renderer cannot decide for itself that a back-filled group is
/// ordinary.
#[test]
fn the_trailing_backfill_group_is_marked_unclassified() {
    let mut doc = two_group_doc();
    assert!(
        ReviewView::project(&doc)
            .unwrap()
            .groups
            .iter()
            .all(|g| !g.unclassified),
        "no back-fill recorded in the audit"
    );

    doc.audit.classes_missing = Some(1);
    let view = ReviewView::project(&doc).unwrap();
    assert!(!view.groups[0].unclassified);
    assert!(
        view.groups[1].unclassified,
        "the back-fill is assembled last"
    );
    assert_eq!(view.tier_name(&view.groups[1]), "unclassified");
    assert_eq!(view.tier_name(&view.groups[0]), "focus");
}

//! Ids into a document, and what a broken document is answered.
use differential::plan::ids::{HunkId, PlanIndex};
use differential::schema::{
    Audit, ClassEntry, Disposition, Effort, FileEntry, ForgePosition, Generator, Group, HunkEntry,
    PlanDocument, Source, SourceKind, Stats,
};
use differential::EngineError;

/// A document with these classes (id, members, exemplar) and files (path, hunks). Each
/// hunk lies in a file of its own, adds two lines and removes one.
fn doc_with(classes: &[(&str, &[&str], &str)], files: &[(&str, &[&str])]) -> PlanDocument {
    let mut top = 0usize;
    for (_, members, _) in classes {
        for m in *members {
            top = top.max(m[1..].parse::<usize>().unwrap() + 1);
        }
    }
    PlanDocument {
        schema_version: 1,
        generator: Generator { tool: "t".into(), version: "0".into(), stages: vec![] },
        source: Source {
            kind: SourceKind::Range,
            base: "b".into(),
            head: "h".into(),
            remote: None,
        },
        stats: Stats { files: 0, hunks: 0, classes: 0, binary_files: 0, submodules: 0 },
        files: files
            .iter()
            .map(|(path, hunks)| FileEntry {
                path: path.to_string(),
                disposition: Disposition::M,
                mode: None,
                old_mode: None,
                old_path: None,
                new_path: None,
                rename_similarity: None,
                binary: false,
                submodule: None,
                generated: false,
                generated_by: None,
                hunk_ids: hunks.iter().map(|h| h.to_string()).collect(),
            })
            .collect(),
        hunks: (0..top)
            .map(|n| HunkEntry {
                id: format!("h{n}"),
                file: format!("src/f{n}.rs"),
                old_start: 1,
                old_count: 1,
                new_start: 1,
                new_count: 2,
                class: classes
                    .iter()
                    .find(|(_, members, _)| members.contains(&format!("h{n}").as_str()))
                    .map_or("C0", |(id, _, _)| id)
                    .to_string(),
                digest: format!("digest{n}"),
                nonl_old: false,
                nonl_new: false,
                forge_position: ForgePosition { new_line: Some(1), old_line: Some(1) },
            })
            .collect(),
        classes: classes
            .iter()
            .map(|(id, members, exemplar)| ClassEntry {
                id: id.to_string(),
                hunk_ids: members.iter().map(|m| m.to_string()).collect(),
                exemplar: exemplar.to_string(),
                pure_substitution: false,
                defines: vec![],
                depends_on: vec![],
            })
            .collect(),
        groups: None,
        reading_plan: None,
        audit: Audit {
            applier_exact: "0/0".into(),
            tree_assertion: "pass".into(),
            hunks_carried: 0,
            recount: 0,
            coverage: None,
            classes_missing: None,
            classes_duplicated: None,
            classes_hallucinated: None,
            read_hunks: None,
            skipped_hunks: None,
        },
    }
}

fn group(id: &str, effort: Effort, classes: &[&str]) -> Group {
    Group {
        id: id.to_string(),
        label: format!("{id} label"),
        description: String::new(),
        reason: String::new(),
        effort,
        role: None,
        class_ids: classes.iter().map(|c| c.to_string()).collect(),
        depends_on: vec![],
        rank: 0,
    }
}

#[test]
fn hunk_ids_round_trip_through_the_wire_form() {
    for n in [0usize, 1, 42, 1234] {
        let id = HunkId::from_index(n);
        assert_eq!(id.to_string(), format!("h{n}"));
        assert_eq!(HunkId::parse(&id.to_string()).unwrap(), id);
    }
}

/// A broken document is answered once, with one error, before any renderer sees it.
#[test]
fn build_rejects_a_document_that_contradicts_itself() {
    // `doc_with` synthesizes a hunk for every id mentioned, so the range
    // has to be broken deliberately after the fact.
    let mut out_of_range = doc_with(&[("C0", &["h0", "h9"], "h0")], &[]);
    out_of_range.hunks.truncate(1);
    assert!(
        matches!(
            PlanIndex::build(&out_of_range),
            Err(EngineError::PlanIntegrity(_))
        ),
        "a member id past the end of hunks must not reach an accessor"
    );

    let mut missing_class = doc_with(&[("C0", &["h0"], "h0")], &[]);
    missing_class.groups = Some(vec![group("g0", Effort::Focus, &["C0", "C7"])]);
    assert!(matches!(
        PlanIndex::build(&missing_class),
        Err(EngineError::PlanIntegrity(_))
    ));

    let bad_exemplar = doc_with(&[("C0", &["h0"], "nope")], &[]);
    assert!(matches!(
        PlanIndex::build(&bad_exemplar),
        Err(EngineError::PlanIntegrity(_))
    ));
}

/// Every accessor is total once `build` returns.
#[test]
fn accessors_are_total_after_a_successful_build() {
    let mut doc = doc_with(
        &[("C0", &["h0", "h1"], "h0"), ("C1", &["h2"], "h2")],
        &[("src/a.rs", &["h0", "h1"])],
    );
    doc.groups = Some(vec![group("g0", Effort::Focus, &["C0", "C1"])]);
    let index = PlanIndex::build(&doc).unwrap();

    assert_eq!(index.exemplar("C0"), HunkId::from_index(0));
    assert_eq!(index.class_hunks("C1"), [HunkId::from_index(2)]);
    assert_eq!(index.hunk(HunkId::from_index(1)).id, "h1");
    assert_eq!(index.group_hunks(&index.groups()[0]).len(), 3);
    assert_eq!(index.file_hunks(&doc.files[0]).len(), 2);
}

/// A core-only document has no groups; that is a state, not a failure.
#[test]
fn an_ungrouped_document_indexes_with_no_groups() {
    let doc = doc_with(&[("C0", &["h0"], "h0")], &[]);
    let index = PlanIndex::build(&doc).unwrap();
    assert!(index.groups().is_empty());
}

#[test]
fn malformed_hunk_ids_are_rejected_not_panicked_on() {
    for bad in ["", "x0", "h", "h-1", "hfoo", "0", "é0"] {
        let err = HunkId::parse(bad).unwrap_err();
        assert!(
            matches!(err, EngineError::PlanIntegrity(_)),
            "{bad:?} produced {err:?}"
        );
    }
}

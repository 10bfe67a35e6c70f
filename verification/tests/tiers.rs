//! What is read and what is deferred.
use differential::plan::ids::{HunkId, PlanIndex};
use differential::plan::tiers::{reading_split, Deferral, Fold, ReadingSplit};
use differential::schema::{
    Audit, ClassEntry, Disposition, Effort, FileEntry, ForgePosition, Generator, Group, HunkEntry,
    PlanDocument, Source, SourceKind, Stats,
};

/// A document with these classes (id, members, exemplar) and files (path, hunks). Each
/// hunk lies in a file of its own, adds two lines and removes one.
fn doc_with(classes: &[(&str, &[&str], &str)], files: &[(&str, &[&str])]) -> PlanDocument {
    let mut top = 0usize;
    for (_, members, _) in classes {
        for m in *members {
            top = top.max(m[1..].parse::<usize>().unwrap() + 1);
        }
    }
    PlanDocument {
        schema_version: 1,
        generator: Generator { tool: "t".into(), version: "0".into(), stages: vec![] },
        source: Source {
            kind: SourceKind::Range,
            base: "b".into(),
            head: "h".into(),
            remote: None,
        },
        stats: Stats { files: 0, hunks: 0, classes: 0, binary_files: 0, submodules: 0 },
        files: files
            .iter()
            .map(|(path, hunks)| FileEntry {
                path: path.to_string(),
                disposition: Disposition::M,
                mode: None,
                old_mode: None,
                old_path: None,
                new_path: None,
                rename_similarity: None,
                binary: false,
                submodule: None,
                generated: false,
                generated_by: None,
                hunk_ids: hunks.iter().map(|h| h.to_string()).collect(),
            })
            .collect(),
        hunks: (0..top)
            .map(|n| HunkEntry {
                id: format!("h{n}"),
                file: format!("src/f{n}.rs"),
                old_start: 1,
                old_count: 1,
                new_start: 1,
                new_count: 2,
                class: classes
                    .iter()
                    .find(|(_, members, _)| members.contains(&format!("h{n}").as_str()))
                    .map_or("C0", |(id, _, _)| id)
                    .to_string(),
                digest: format!("digest{n}"),
                nonl_old: false,
                nonl_new: false,
                forge_position: ForgePosition { new_line: Some(1), old_line: Some(1) },
            })
            .collect(),
        classes: classes
            .iter()
            .map(|(id, members, exemplar)| ClassEntry {
                id: id.to_string(),
                hunk_ids: members.iter().map(|m| m.to_string()).collect(),
                exemplar: exemplar.to_string(),
                pure_substitution: false,
                defines: vec![],
                depends_on: vec![],
            })
            .collect(),
        groups: None,
        reading_plan: None,
        audit: Audit {
            applier_exact: "0/0".into(),
            tree_assertion: "pass".into(),
            hunks_carried: 0,
            recount: 0,
            coverage: None,
            classes_missing: None,
            classes_duplicated: None,
            classes_hallucinated: None,
            read_hunks: None,
            skipped_hunks: None,
        },
    }
}

fn group(id: &str, effort: Effort, classes: &[&str]) -> Group {
    Group {
        id: id.to_string(),
        label: format!("{id} label"),
        description: String::new(),
        reason: String::new(),
        effort,
        role: None,
        class_ids: classes.iter().map(|c| c.to_string()).collect(),
        depends_on: vec![],
        rank: 0,
    }
}

fn hunk_ids(hunks: &[HunkId]) -> Vec<String> {
    hunks.iter().map(|h| h.to_string()).collect()
}

/// Two classes: a 3-member shape and a singleton.
fn two_classes() -> PlanDocument {
    doc_with(
        &[("C0", &["h0", "h1", "h2"], "h0"), ("C1", &["h3"], "h3")],
        &[],
    )
}

fn split(effort: Effort, fold: Fold) -> ReadingSplit {
    let mut doc = two_classes();
    doc.groups = Some(vec![group("g0", effort, &["C0", "C1"])]);
    let index = PlanIndex::build(&doc).unwrap();
    let groups = index.groups();
    reading_split(&index, &groups[0], fold)
}

#[test]
fn focus_reads_everything_folded_or_not() {
    for fold in [Fold::Folded, Fold::Unfolded] {
        let s = split(Effort::Focus, fold);
        assert_eq!(hunk_ids(&s.shown), ["h0", "h1", "h2", "h3"]);
        assert!(s.deferred.is_empty());
        assert_eq!(s.deferral, Deferral::Nothing);
    }
}

#[test]
fn folded_skim_shows_one_exemplar_per_class_and_defers_the_rest() {
    let s = split(Effort::Skim, Fold::Folded);
    assert_eq!(hunk_ids(&s.shown), ["h0", "h3"]);
    assert_eq!(hunk_ids(&s.deferred), ["h1", "h2"]);
    assert_eq!(s.deferral, Deferral::SkimRemainder);
}

#[test]
fn folded_noise_defers_everything_and_shows_nothing() {
    let s = split(Effort::Noise, Fold::Folded);
    assert!(s.shown.is_empty());
    assert_eq!(hunk_ids(&s.deferred), ["h0", "h1", "h2", "h3"]);
    assert_eq!(s.deferral, Deferral::FoldedNoise);
}

#[test]
fn unfolding_reads_everything_whatever_the_tier() {
    for effort in [Effort::Skim, Effort::Noise] {
        let s = split(effort, Fold::Unfolded);
        assert_eq!(hunk_ids(&s.shown), ["h0", "h1", "h2", "h3"]);
        assert_eq!(s.deferral, Deferral::Nothing);
    }
}

/// A skim group of singletons has nothing behind the fold, so a renderer
/// must not offer to unfold one.
#[test]
fn a_skim_group_of_singletons_defers_nothing() {
    let mut doc = doc_with(&[("C0", &["h0"], "h0"), ("C1", &["h1"], "h1")], &[]);
    doc.groups = Some(vec![group("g0", Effort::Skim, &["C0", "C1"])]);
    let index = PlanIndex::build(&doc).unwrap();
    let s = reading_split(&index, &index.groups()[0], Fold::Folded);

    assert_eq!(hunk_ids(&s.shown), ["h0", "h1"]);
    assert!(s.deferred.is_empty());
    assert_eq!(
        s.deferral,
        Deferral::Nothing,
        "nothing is withheld, so there is nothing to unfold"
    );
}

/// The stack commits every hunk in a noise group even though a reader
/// reads none of them — coverage is structural, not a function of effort.
#[test]
fn all_carries_every_hunk_shown_first() {
    let s = split(Effort::Skim, Fold::Folded);
    assert_eq!(hunk_ids(&s.all()), ["h0", "h3", "h1", "h2"]);

    let noise = split(Effort::Noise, Fold::Folded);
    assert_eq!(hunk_ids(&noise.all()), ["h0", "h1", "h2", "h3"]);
}

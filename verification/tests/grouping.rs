//! The grouping stage: audit, relocations, assembly, and where an answer comes from.
use std::cell::RefCell;
use std::sync::Mutex;

use differential::grouping::fetch::{fetch_response, GroupingOptions, Progress};
use differential::grouping::gate::apply_relocation_gate;
use differential::grouping::infos::class_infos;
use differential::grouping::key::cache_key;
use differential::grouping::parse::{default_effort, err, json_object, RawGroup, RawGroups};
use differential::grouping::payload::build_prompt;
use differential::grouping::{audit, route, run, ClassInfo, WorkGroup};
use differential::llm::{LlmBackend, LlmError};
use differential::ordering;
use differential::lang::FileSymbols;
use differential::model::{DiffView, FileChange, Hunk};
use differential::ports::GroupingCache;
use differential::schema::{
    Audit, ClassEntry, Coverage, Disposition, Effort, FileEntry, ForgePosition, GeneratedBy,
    Generator, HunkEntry, PlanDocument, ReadAction, Role, Source, SourceKind, Stats,
};
use differential::EngineError;

/// A document with these classes (id, members, exemplar) and files (path, hunks). Each
/// hunk lies in a file of its own, adds two lines and removes one.
fn doc_with(classes: &[(&str, &[&str], &str)], files: &[(&str, &[&str])]) -> PlanDocument {
    let mut top = 0usize;
    for (_, members, _) in classes {
        for m in *members {
            top = top.max(m[1..].parse::<usize>().unwrap() + 1);
        }
    }
    PlanDocument {
        schema_version: 1,
        generator: Generator { tool: "t".into(), version: "0".into(), stages: vec![] },
        source: Source {
            kind: SourceKind::Range,
            base: "b".into(),
            head: "h".into(),
            remote: None,
        },
        stats: Stats { files: 0, hunks: 0, classes: 0, binary_files: 0, submodules: 0 },
        files: files
            .iter()
            .map(|(path, hunks)| FileEntry {
                path: path.to_string(),
                disposition: Disposition::M,
                mode: None,
                old_mode: None,
                old_path: None,
                new_path: None,
                rename_similarity: None,
                binary: false,
                submodule: None,
                generated: false,
                generated_by: None,
                hunk_ids: hunks.iter().map(|h| h.to_string()).collect(),
            })
            .collect(),
        hunks: (0..top)
            .map(|n| HunkEntry {
                id: format!("h{n}"),
                file: format!("src/f{n}.rs"),
                old_start: 1,
                old_count: 1,
                new_start: 1,
                new_count: 2,
                class: classes
                    .iter()
                    .find(|(_, members, _)| members.contains(&format!("h{n}").as_str()))
                    .map_or("C0", |(id, _, _)| id)
                    .to_string(),
                digest: format!("digest{n}"),
                nonl_old: false,
                nonl_new: false,
                forge_position: ForgePosition { new_line: Some(1), old_line: Some(1) },
            })
            .collect(),
        classes: classes
            .iter()
            .map(|(id, members, exemplar)| ClassEntry {
                id: id.to_string(),
                hunk_ids: members.iter().map(|m| m.to_string()).collect(),
                exemplar: exemplar.to_string(),
                pure_substitution: false,
                defines: vec![],
                depends_on: vec![],
            })
            .collect(),
        groups: None,
        reading_plan: None,
        audit: Audit {
            applier_exact: "0/0".into(),
            tree_assertion: "pass".into(),
            hunks_carried: 0,
            recount: 0,
            coverage: None,
            classes_missing: None,
            classes_duplicated: None,
            classes_hallucinated: None,
            read_hunks: None,
            skipped_hunks: None,
        },
    }
}

fn info(id: &str, n_hunks: usize) -> ClassInfo {
    ClassInfo {
        id: id.into(),
        n_hunks,
        files: vec!["f".into()],
        kind: 'M',
        exemplar: 0,
        all_generated: false,
        rename_gated: false,
        rename_note: None,
        digests: vec![format!("digest of {id}")],
    }
}

fn raw_group(label: &str, effort: &str, classes: &[&str]) -> RawGroup {
    RawGroup {
        label: label.into(),
        description: "d".into(),
        classes: classes.iter().map(|c| c.to_string()).collect(),
        effort: effort.into(),
        reason: "r".into(),
    }
}

fn work(label: &str, skim: bool, classes: &[&str]) -> WorkGroup {
    WorkGroup {
        label: label.into(),
        description: "d".into(),
        reason: "r".into(),
        skim,
        class_ids: classes.iter().map(|c| c.to_string()).collect(),
        backfill: false,
    }
}

#[test]
fn the_audit_keeps_first_mentions_and_back_fills_the_rest() {
    let infos = [info("C0", 3), info("C1", 2), info("C2", 1)];
    let offered: Vec<&ClassInfo> = infos.iter().collect();
    let raw = RawGroups {
        groups: vec![
            raw_group("A", "skim", &["C0", "C9", "C0"]),
            raw_group("B", "whatever", &["C0", "C9"]),
            raw_group("C", "focus", &["C1"]),
        ],
    };
    let r = audit(raw, &offered);
    assert_eq!(r.missing, vec!["C2"]);
    assert_eq!(r.dupes, vec!["C0"]);
    assert_eq!(r.halluc, vec!["C9"]);
    assert_eq!((r.assigned_hunks, r.offered_hunks), (5, 6));
    let shape: Vec<(&str, bool, bool, Vec<String>)> = r
        .groups
        .iter()
        .map(|g| (g.label.as_str(), g.skim, g.backfill, g.class_ids.clone()))
        .collect();
    assert_eq!(
        shape,
        vec![
            ("A", true, false, vec!["C0".to_string()]),
            ("C", false, false, vec!["C1".to_string()]),
            ("Carried by no group", false, true, vec!["C2".to_string()]),
        ],
        "a group that keeps nothing is dropped"
    );
}

#[test]
fn an_answer_that_names_nothing_leaves_everything_to_the_back_fill() {
    let infos = [info("C0", 3), info("C1", 2)];
    let offered: Vec<&ClassInfo> = infos.iter().collect();
    let r = audit(RawGroups { groups: vec![] }, &offered);
    assert_eq!(r.groups.len(), 1);
    assert_eq!(r.groups[0].class_ids, vec!["C0", "C1"]);
    assert_eq!((r.assigned_hunks, r.offered_hunks), (0, 5));
}

#[test]
fn a_rewritten_rename_never_stays_in_a_skim_group() {
    let mut infos = vec![info("C0", 1), info("C1", 1), info("C2", 1)];
    infos[1].rename_gated = true;
    infos[2].rename_gated = true;
    let groups = vec![work("S", true, &["C0", "C1"]), work("F", false, &["C2"])];
    let r = apply_relocation_gate(groups.clone(), &infos);
    assert_eq!(r.len(), 3);
    assert_eq!(r[0].class_ids, vec!["C0"]);
    assert_eq!(r[1], groups[1], "a focus group keeps its classes");
    assert_eq!(r[2].label, "Modified during move");
    assert_eq!(r[2].class_ids, vec!["C1"]);
    assert!(!r[2].skim);

    // A skim group that loses everything is dropped.
    let r = apply_relocation_gate(vec![work("S", true, &["C1"])], &infos);
    assert_eq!(r.len(), 1);
    assert_eq!(r[0].label, "Modified during move");
}

fn three_classes() -> PlanDocument {
    let mut doc = doc_with(
        &[
            ("C0", &["h0", "h1", "h2"], "h0"),
            ("C1", &["h3"], "h3"),
            ("C2", &["h4"], "h4"),
        ],
        &[
            ("src/f0.rs", &["h0"]),
            ("src/f1.rs", &["h1"]),
            ("src/f2.rs", &["h2"]),
            ("src/f3.rs", &["h3"]),
            ("src/f4.rs", &["h4"]),
        ],
    );
    doc.files[4].generated = true;
    doc.files[4].generated_by = Some(GeneratedBy::Builtin);
    doc
}

#[test]
fn a_grouped_plan_covers_every_class_once_and_counts_what_is_read() {
    let doc = three_classes();
    let infos = class_infos(&doc);
    assert!(infos[2].all_generated && !infos[0].all_generated);
    assert_eq!(route(&infos, true).len(), 1);
    assert_eq!(route(&infos, false).len(), 2);
    let doc = run(
        doc,
        &infos,
        RawGroups { groups: vec![raw_group("Sweep", "skim", &["C0"])] },
    );
    let groups = doc.groups.as_ref().unwrap();
    let listed: Vec<(&str, &str, Effort)> =
        groups.iter().map(|g| (g.id.as_str(), g.label.as_str(), g.effort)).collect();
    assert_eq!(
        listed,
        vec![
            ("g0", "Sweep", Effort::Skim),
            ("g1", "Generated files", Effort::Noise),
            ("g2", "Carried by no group", Effort::Focus),
        ]
    );
    assert_eq!(groups[1].role, Some(Role::Noise));
    let mut classes: Vec<&String> = groups.iter().flat_map(|g| &g.class_ids).collect();
    classes.sort();
    assert_eq!(classes, ["C0", "C1", "C2"]);

    let steps: Vec<(&str, ReadAction)> = doc
        .reading_plan
        .as_ref()
        .unwrap()
        .iter()
        .map(|s| (s.group.as_str(), s.action))
        .collect();
    assert_eq!(
        steps,
        vec![
            ("g0", ReadAction::Exemplars),
            ("g0", ReadAction::Skip),
            ("g1", ReadAction::Fold),
            ("g2", ReadAction::Read),
        ]
    );
    // One exemplar and the back-fill are read; two of the sweep and the noise are not.
    assert_eq!(doc.audit.read_hunks, Some(2));
    assert_eq!(doc.audit.skipped_hunks, Some(3));
    assert_eq!(doc.audit.classes_missing, Some(1));
    assert_eq!(doc.audit.coverage, Some(Coverage { assigned: 3, offered: 4 }));
}

/// A view with one file per hunk of a document.
fn view_of(doc: &PlanDocument) -> DiffView {
    let hunks: Vec<Hunk> = (0..doc.hunks.len())
        .map(|n| Hunk {
            file: n,
            old_start: 1,
            old_count: 1,
            new_start: 1,
            new_count: 2,
            removed: vec![b"old".to_vec()],
            added: vec![b"new".to_vec(), b"more".to_vec()],
            nonl_old: false,
            nonl_new: false,
        })
        .collect();
    let files = (0..doc.hunks.len())
        .map(|n| FileChange {
            path: format!("src/f{n}.rs").into_bytes(),
            disposition: differential::model::Disposition::Modified,
            new_mode: Some("100644".into()),
            old_mode: None,
            binary: false,
            submodule: None,
            old_oid: None,
            new_oid: None,
            hunks: vec![n],
            rename_similarity: None,
            rename_from: None,
            rename_to: None,
            generated: None,
        })
        .collect();
    DiffView { files, hunks }
}

fn no_symbols() -> FileSymbols {
    FileSymbols { defines: vec![], references: vec![] }
}

#[test]
fn ordering_keeps_every_group_and_renumbers_them() {
    let doc = three_classes();
    let infos = class_infos(&doc);
    let raw = RawGroups {
        groups: vec![
            raw_group("Sweep", "skim", &["C0"]),
            raw_group("Close", "focus", &["C1"]),
        ],
    };
    let mut doc = run(doc, &infos, raw);
    let view = view_of(&doc);
    let symbols = view.files.iter().map(|_| no_symbols()).collect();
    ordering::apply(&mut doc, &view, &symbols);
    let groups = doc.groups.as_ref().unwrap();
    let mut labels: Vec<&str> = groups.iter().map(|g| g.label.as_str()).collect();
    assert_eq!(labels[0], "Close", "focus groups come first");
    labels.sort();
    assert_eq!(labels, ["Close", "Generated files", "Sweep"]);
    for (rank, g) in groups.iter().enumerate() {
        assert_eq!(g.rank as usize, rank);
    }
}

#[test]
fn what_defines_a_name_is_read_before_what_uses_it() {
    let doc = doc_with(
        &[("C0", &["h0", "h1"], "h0"), ("C1", &["h2"], "h2")],
        &[("src/f0.rs", &["h0"]), ("src/f1.rs", &["h1"]), ("src/f2.rs", &["h2"])],
    );
    let infos = class_infos(&doc);
    let raw = RawGroups {
        groups: vec![raw_group("Uses", "focus", &["C0"]), raw_group("Defines", "focus", &["C1"])],
    };
    let mut doc = run(doc, &infos, raw);
    let view = view_of(&doc);
    let named = vec![vec![b"WidgetCore".to_vec()]; 3];
    let symbols = vec![
        FileSymbols { defines: vec![], references: named.clone() },
        no_symbols(),
        FileSymbols { defines: named, references: vec![] },
    ];
    ordering::apply(&mut doc, &view, &symbols);
    let groups = doc.groups.as_ref().unwrap();
    assert_eq!(groups[0].label, "Defines", "though the other group is larger");
    assert_eq!(groups[0].role, Some(Role::Foundation));
    assert_eq!(groups[1].label, "Uses");
    assert_eq!(groups[1].role, Some(Role::Consumer));
    assert_eq!(groups[1].depends_on, vec![groups[0].id.clone()]);
    assert_eq!(doc.reading_plan.as_ref().unwrap()[0].group, groups[0].id);
}

#[test]
fn the_object_is_cut_out_of_fences_and_prose() {
    assert_eq!(json_object("{\"groups\": []}").unwrap(), "{\"groups\": []}");
    assert_eq!(json_object("```json\n{\"a\": {}}\n```").unwrap(), "{\"a\": {}}");
    assert_eq!(json_object("Here: {x} and {y}. Done.").unwrap(), "{x} and {y}");
    for bad in ["", "no object", "}{", "{ unclosed"] {
        match json_object(bad) {
            Err(EngineError::GroupingParse { msg, sample }) => {
                assert_eq!(msg, "no JSON object in response");
                assert_eq!(sample, bad);
            }
            other => panic!("{bad:?} gave {other:?}"),
        }
    }
    match err("why", &"é".repeat(500)) {
        EngineError::GroupingParse { sample, .. } => assert_eq!(sample.chars().count(), 300),
        other => panic!("got {other:?}"),
    }
    assert_eq!(default_effort(), "focus");
}

#[test]
fn the_prompt_lists_the_heaviest_class_first() {
    let mut infos = [info("C0", 1), info("C1", 5), info("C2", 5)];
    infos[1].exemplar = 9;
    infos[2].exemplar = 2;
    let offered: Vec<&ClassInfo> = infos.iter().collect();
    let template = "{{FETCH}} --doc {{DOC}}; {{BASE}}..{{HEAD}}: {{CLASS_IDS}}";
    assert_eq!(
        build_prompt(template, &offered, "dfr", "doc.json", "b", "h"),
        "dfr --doc doc.json; b..h: C2 C1 C0"
    );
}

#[test]
fn the_cache_key_follows_everything_that_shapes_a_grouping() {
    let infos = [info("C0", 1), info("C1", 5)];
    let offered: Vec<&ClassInfo> = infos.iter().collect();
    let swapped: Vec<&ClassInfo> = infos.iter().rev().collect();
    let key = cache_key(&offered, "agent", "generic-v1");
    assert_eq!(key.len(), 40);
    assert_eq!(key, cache_key(&swapped, "agent", "generic-v1"), "the order offered is no part");
    assert_ne!(key, cache_key(&offered, "other", "generic-v1"));
    assert_ne!(key, cache_key(&offered, "agent", "generic-v2"));
    let mut changed = info("C1", 5);
    changed.digests = vec!["other content".into()];
    let moved: Vec<&ClassInfo> = vec![&infos[0], &changed];
    assert_ne!(key, cache_key(&moved, "agent", "generic-v1"));
}

struct Agent(Mutex<usize>);

impl LlmBackend for Agent {
    fn name(&self) -> &str {
        "agent"
    }
    fn complete(&self, prompt: &str) -> Result<String, LlmError> {
        *self.0.lock().unwrap() += 1;
        if prompt == "fail" {
            Err(LlmError::Empty { command: "agent".into() })
        } else {
            Ok(format!("answer to {prompt}"))
        }
    }
}

struct Shelf(RefCell<Vec<(String, String)>>);

impl GroupingCache for Shelf {
    fn get(&self, key: &str) -> Result<Option<String>, EngineError> {
        Ok(self.0.borrow().iter().find(|(k, _)| k == key).map(|(_, v)| v.clone()))
    }
    fn put(&self, key: &str, response: &str) -> Result<(), EngineError> {
        self.0.borrow_mut().push((key.to_string(), response.to_string()));
        Ok(())
    }
}

#[test]
fn a_kept_answer_is_handed_on_without_a_call() {
    let (agent, shelf) = (Agent(Mutex::new(0)), Shelf(RefCell::new(vec![])));
    let infos = [info("C0", 1)];
    let offered: Vec<&ClassInfo> = infos.iter().collect();
    let options = GroupingOptions { backend: &agent, cache: &shelf, fetch: "dfr" };
    let seen = RefCell::new(vec![]);
    let ask = |prompt: &str| {
        fetch_response(prompt, &offered, &options, "generic-v1", &|p| seen.borrow_mut().push(p))
    };
    assert_eq!(ask("first").unwrap(), "answer to first");
    assert_eq!(ask("second").unwrap(), "answer to first", "the key has no prompt text in it");
    assert_eq!(*agent.0.lock().unwrap(), 1);
    assert_eq!(
        *seen.borrow(),
        vec![
            Progress::Grouping { backend: "agent".into(), cached: false },
            Progress::Grouping { backend: "agent".into(), cached: true },
        ]
    );
    assert_eq!(shelf.0.borrow()[0].0, cache_key(&offered, "agent", "generic-v1"));
}

#[test]
fn a_failed_call_is_not_kept() {
    let (agent, shelf) = (Agent(Mutex::new(0)), Shelf(RefCell::new(vec![])));
    let options = GroupingOptions { backend: &agent, cache: &shelf, fetch: "dfr" };
    let r = fetch_response("fail", &[], &options, "generic-v1", &|_| {});
    assert_eq!(r, Err(EngineError::Llm(LlmError::Empty { command: "agent".into() })));
    assert!(shelf.0.borrow().is_empty());
}

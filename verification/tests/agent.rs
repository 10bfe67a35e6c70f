//! What the grouping agent reads of a change.
use differential::agent;
use differential::artefact::graph;
use differential::artefact::symbols::{FileSymbols, Scope, Symbol};
use differential::artefact::{all, class, definers, in_file, index, resolve};
use differential::document::{assemble, builtin_generated, SourceInfo};
use differential::invariants::{fidelity_report, tree_report, Contents};
use differential::lang::LanguageRegistry;
use differential::model::GeneratedBy;
use differential::plan::enumerate::{build_view, classify, Enumeration};
use differential::schema::{PlanDocument, SourceKind};

/// A change that appends one line to each of these files.
fn document(changes: &[(&str, &str)], symbols: Vec<Option<FileSymbols>>) -> PlanDocument {
    let mut raw = String::new();
    let mut patch = String::new();
    for (path, added) in changes {
        let (old, new) = ("a".repeat(40), "b".repeat(40));
        raw.push_str(&format!(":100644 100644 {old} {new} M\0{path}\0"));
        patch.push_str(&format!(
            "diff --git a/{path} b/{path}\nindex {old}..{new} 100644\n--- a/{path}\n+++ b/{path}\n\
             @@ -1,0 +2 @@\n+{added}\n"
        ));
    }
    let mut view = build_view(&Enumeration {
        raw_records: raw.as_bytes(),
        canonical_patch: patch.as_bytes(),
        rename_records: b"",
    })
    .unwrap();
    let marks = changes
        .iter()
        .map(|(path, _)| builtin_generated(path.as_bytes()).then_some(GeneratedBy::Builtin))
        .collect();
    let part = classify(&mut view, &marks, &LanguageRegistry::builtin());
    let contents = changes
        .iter()
        .map(|(_, added)| Contents {
            base: Some(b"placeholder\n".to_vec()),
            head: Some(format!("placeholder\n{added}\n").into_bytes()),
        })
        .collect();
    let mut report = fidelity_report(&view, &contents);
    report.tree = Some(tree_report(
        view.hunks.len(),
        "tree".into(),
        Some(("tree".into(), patch.clone().into_bytes())),
    ));
    let edges = graph::build(&view, &part, &symbols);
    let source =
        SourceInfo { kind: SourceKind::Range, base: "base".into(), head: "head".into() };
    assemble(&view, &part, &edges, &source, &report, "0").unwrap().expect("document")
}

fn symbol(name: &str) -> Symbol {
    Symbol { name: name.as_bytes().to_vec(), scope: Scope::Global }
}

/// A two-class change with one real dependency: `b_user` references the type that
/// `a_core` introduces.
fn two_classes() -> PlanDocument {
    document(
        &[
            ("src/a_core.txt", "pub struct WidgetCore { pub retries: u32 }"),
            ("src/b_user.txt", "let core = WidgetCore { retries: 3 };"),
        ],
        vec![
            Some(FileSymbols {
                defines: vec![vec![], vec![symbol("WidgetCore")]],
                references: vec![vec![], vec![]],
            }),
            Some(FileSymbols {
                defines: vec![vec![], vec![]],
                references: vec![vec![], vec![symbol("WidgetCore")]],
            }),
        ],
    )
}

#[test]
fn one_call_prints_every_class_with_its_graph() {
    let text = agent::run(&two_classes());

    assert!(text.contains("C0"), "{text}");
    assert!(text.contains("C1"), "{text}");
    assert!(text.contains("defines: WidgetCore"), "what each class introduces\n{text}");
    assert!(text.contains("(WidgetCore)"), "and the symbol behind each edge\n{text}");
    assert!(
        text.contains("used by: C1"),
        "including the reverse edge, which a reader cannot derive from its own entry\n{text}"
    );
}

#[test]
fn every_member_gets_a_location_not_just_the_exemplar() {
    let text = agent::run(&two_classes());
    assert!(text.contains("(exemplar)"), "{text}");

    let members: Vec<&str> = text.lines().filter(|l| l.starts_with("  h")).collect();
    assert_eq!(members.len(), 2, "one line per hunk in the change\n{text}");
    for line in &members {
        assert!(line.contains(".txt"), "every member names its file\n{line}");
        assert!(line.contains("@@ -"), "and its line range\n{line}");
    }
}

#[test]
fn generated_content_is_not_offered_but_a_mixed_class_says_so() {
    let text = agent::run(&document(
        &[
            ("src/a.txt", "pub struct WidgetCore;"),
            ("Cargo.lock", "checksum = \"beefcafe\""),
        ],
        vec![None, None],
    ));

    assert!(text.contains("src/a.txt"), "{text}");
    assert!(!text.contains("Cargo.lock"), "wholly generated, so not offered\n{text}");
    // Nothing offered here has a generated file in it, so no class claims one.
    assert!(!text.contains("generated:"), "{text}");
}

#[test]
fn an_empty_change_says_so_rather_than_printing_nothing() {
    assert_eq!(agent::run(&document(&[], vec![])), "no classes\n");
}

#[test]
fn a_class_reads_exactly() {
    let doc = two_classes();
    let text = agent::run(&doc);
    println!("{text}");
    let parts: Vec<String> = all(&doc).iter().map(|v| agent::detail(&doc, v)).collect();
    for part in parts {
        assert!(text.contains(&part), "{part}\n---\n{text}");
    }
}

#[test]
fn classes_are_found_by_id_file_symbol_and_member() {
    let doc = two_classes();
    assert_eq!(index(&doc).len(), 2);
    assert_eq!(class(&doc, "C1").unwrap().class.id, "C1");
    assert!(class(&doc, "C9").is_none());
    assert_eq!(in_file(&doc, "src/a_core.txt").len(), 1);
    assert!(in_file(&doc, "src/none.txt").is_empty());
    assert_eq!(definers(&doc, "WidgetCore")[0].class.id, "C0");
    assert_eq!(resolve(&doc, "h1").unwrap()[0].file, "src/b_user.txt");
    assert_eq!(resolve(&doc, "C0").unwrap()[0].file, "src/a_core.txt");
    assert!(resolve(&doc, "nothing").is_none());
}

#[test]
fn a_generated_class_is_listed_but_not_offered() {
    let doc = document(
        &[("src/a.txt", "pub struct WidgetCore;"), ("Cargo.lock", "checksum = \"beefcafe\"")],
        vec![None, None],
    );
    assert_eq!(all(&doc).len(), 2);
    assert_eq!(index(&doc).len(), 1);
}

#[test]
fn an_edge_needs_one_definer() {
    let twice = document(
        &[
            ("src/a.txt", "pub struct WidgetCore { pub retries: u32 }"),
            ("src/b.txt", "enum WidgetCore"),
            ("src/c.txt", "let core = WidgetCore { retries: 3 };"),
        ],
        vec![
            Some(FileSymbols {
                defines: vec![vec![], vec![symbol("WidgetCore")]],
                references: vec![vec![], vec![]],
            }),
            Some(FileSymbols {
                defines: vec![vec![], vec![symbol("WidgetCore")]],
                references: vec![vec![], vec![]],
            }),
            Some(FileSymbols {
                defines: vec![vec![], vec![]],
                references: vec![vec![], vec![symbol("WidgetCore")]],
            }),
        ],
    );
    assert!(twice.classes.iter().all(|c| c.depends_on.is_empty()), "two definers draw no edge");
    let once = two_classes();
    assert_eq!(once.classes[1].depends_on[0].on, "C0");
    assert_eq!(once.classes[1].depends_on[0].via, vec!["WidgetCore"]);
}
